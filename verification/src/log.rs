//! The append-only log and its writer.
//!
//! The log holds the file's bytes and replays them into an index. Writes go
//! through a `LogWriter`, which queues `Write`, `Flush` and `Shutdown`
//! messages in order for the single consumer that owns the file handle; the
//! caller that drains the queue performs each message against the file, so
//! records reach the file in exactly the order they were appended here. After
//! `Shutdown` the writer accepts nothing further.

use vstd::prelude::*;
use dashmap::DashMap;
use crate::record::{
    spec_record, replay, replay_from, apply_entry, record_key, record_value, record_size,
    bounded_index, decode_record, encode_record,
};
use crate::index::{dm_new, dm_insert, dm_remove, dash_contents};
use crate::{MAX_KEY_LEN, MAX_VALUE_LEN};

verus! {

/// An order for the consumer that owns the file: append these bytes, drain
/// buffers to the OS, or stop.
pub enum LogMessage {
    Write(Vec<u8>),
    Flush,
    Shutdown,
}

/// What a queued message says, over byte sequences.
pub enum LogMessageView {
    Write(Seq<u8>),
    Flush,
    Shutdown,
}

impl View for LogMessage {
    type V = LogMessageView;

    open spec fn view(&self) -> LogMessageView {
        match self {
            LogMessage::Write(data) => LogMessageView::Write(data@),
            LogMessage::Flush => LogMessageView::Flush,
            LogMessage::Shutdown => LogMessageView::Shutdown,
        }
    }
}

/// The ordered queue of messages not yet performed against the file. It
/// stands for the channel to the consumer: `write`, `flush` and `shutdown`
/// enqueue, and the surrounding program takes the messages out in order and
/// performs them. Once `shutdown` has been called, later messages are
/// dropped, as sends to a consumer that has stopped are.
pub struct LogWriter {
    queue: Vec<LogMessage>,
    open: bool,
}

impl LogWriter {
    /// The messages waiting to be performed, in order.
    pub closed spec fn queue_view(&self) -> Seq<LogMessageView> {
        self.queue@.map_values(|m: LogMessage| m@)
    }

    /// Whether the writer still accepts messages: `shutdown` has not been
    /// called.
    pub closed spec fn is_open(&self) -> bool {
        self.open
    }

    /// A fresh writer: accepting, with nothing queued.
    pub fn new() -> (r: LogWriter)
        ensures
            r.queue_view() == Seq::<LogMessageView>::empty(),
            r.is_open(),
    {
        let r = LogWriter { queue: Vec::new(), open: true };
        proof {
            assert(r.queue_view() =~= Seq::<LogMessageView>::empty());
        }
        r
    }

    /// Queues bytes to be appended to the file, in order after everything
    /// queued before; dropped if the writer was shut down.
    pub fn write(&mut self, data: Vec<u8>)
        ensures
            final(self).is_open() == old(self).is_open(),
            final(self).queue_view() == if old(self).is_open() {
                old(self).queue_view().push(LogMessageView::Write(data@))
            } else {
                old(self).queue_view()
            },
    {
        if self.open {
            let ghost before = self.queue_view();
            self.queue.push(LogMessage::Write(data));
            proof {
                assert(self.queue_view() =~= before.push(LogMessageView::Write(data@)));
            }
        }
    }

    /// Queues an order to drain buffers down to the OS; dropped if the
    /// writer was shut down.
    pub fn flush(&mut self)
        ensures
            final(self).is_open() == old(self).is_open(),
            final(self).queue_view() == if old(self).is_open() {
                old(self).queue_view().push(LogMessageView::Flush)
            } else {
                old(self).queue_view()
            },
    {
        if self.open {
            let ghost before = self.queue_view();
            self.queue.push(LogMessage::Flush);
            proof {
                assert(self.queue_view() =~= before.push(LogMessageView::Flush));
            }
        }
    }

    /// Queues the stop order and accepts nothing further.
    pub fn shutdown(&mut self)
        ensures
            !final(self).is_open(),
            final(self).queue_view() == if old(self).is_open() {
                old(self).queue_view().push(LogMessageView::Shutdown)
            } else {
                old(self).queue_view()
            },
    {
        if self.open {
            let ghost before = self.queue_view();
            self.queue.push(LogMessage::Shutdown);
            self.open = false;
            proof {
                assert(self.queue_view() =~= before.push(LogMessageView::Shutdown));
            }
        }
    }

    /// Hands the queued messages out, in order, for the consumer that owns
    /// the file to perform; the queue is empty afterwards.
    pub fn take_messages(&mut self) -> (msgs: Vec<LogMessage>)
        ensures
            msgs@.map_values(|m: LogMessage| m@) == old(self).queue_view(),
            final(self).queue_view() == Seq::<LogMessageView>::empty(),
            final(self).is_open() == old(self).is_open(),
    {
        let mut taken: Vec<LogMessage> = Vec::new();
        core::mem::swap(&mut taken, &mut self.queue);
        proof {
            assert(self.queue_view() =~= Seq::<LogMessageView>::empty());
        }
        taken
    }
}

/// The append-only log: the file's bytes, and the writer that carries new
/// records toward the file.
pub struct Log {
    /// The log file's content. Replaying these bytes yields the live keys.
    pub contents: Vec<u8>,
    /// The queue of appends not yet performed against the file.
    pub writer: LogWriter,
}

impl Log {
    /// A log over a file that holds `initial`, with a fresh writer.
    pub fn new(initial: Vec<u8>) -> (r: Log)
        ensures
            r.contents@ == initial@,
            r.writer.queue_view() == Seq::<LogMessageView>::empty(),
            r.writer.is_open(),
    {
        Log { contents: initial, writer: LogWriter::new() }
    }

    /// Serializes one record and appends it: to the held contents at once,
    /// and to the writer's queue for the file. Oversize keys or values are a
    /// contract failure of the caller, not a runtime condition here.
    pub fn write_entry(&mut self, key: &[u8], value: &[u8])
        requires
            key@.len() <= MAX_KEY_LEN,
            value@.len() <= MAX_VALUE_LEN,
            old(self).writer.is_open(),
        ensures
            final(self).contents@ == old(self).contents@ + spec_record(key@, value@),
            final(self).writer.queue_view() == old(self).writer.queue_view().push(
                LogMessageView::Write(spec_record(key@, value@)),
            ),
            final(self).writer.is_open(),
    {
        let buffer = encode_record(key, value);
        let ghost before = self.contents@;
        let mut i: usize = 0;
        while i < buffer.len()
            invariant
                0 <= i <= buffer@.len(),
                self.contents@ == before + buffer@.take(i as int),
                self.writer == old(self).writer,
            decreases buffer@.len() - i,
        {
            self.contents.push(buffer[i]);
            proof {
                assert(before + buffer@.take(i as int) + seq![buffer@[i as int]] =~= before
                    + buffer@.take(i + 1));
            }
            i = i + 1;
        }
        proof {
            assert(before + buffer@.take(i as int) =~= before + buffer@);
        }
        self.writer.write(buffer);
    }

    /// Replays the held bytes from the front, building the index of live
    /// keys: the last record wins, a tombstone deletes, and a torn tail ends
    /// the replay at the last good record boundary.
    pub fn build_key_map(&self) -> (m: DashMap<Vec<u8>, Vec<u8>>)
        ensures
            dash_contents(m) == replay(self.contents@),
            bounded_index(replay(self.contents@)),
    {
        let mut m = dm_new();
        let mut pos: usize = 0;
        proof {
            assert(self.contents@.skip(0) =~= self.contents@);
            assert(bounded_index(dash_contents(m)));
        }
        loop
            invariant
                pos <= self.contents@.len(),
                replay_from(dash_contents(m), self.contents@.skip(pos as int)) == replay(
                    self.contents@,
                ),
                bounded_index(dash_contents(m)),
            decreases self.contents@.len() - pos,
        {
            let ghost suffix = self.contents@.skip(pos as int);
            let ghost m_before = dash_contents(m);
            match decode_record(self.contents.as_slice(), pos) {
                Some((key, value, next)) => {
                    proof {
                        assert(suffix.skip(record_size(suffix)) =~= self.contents@.skip(
                            next as int,
                        ));
                    }
                    if value.len() == 0 {
                        dm_remove(&mut m, key.as_slice());
                    } else {
                        dm_insert(&mut m, key, value);
                    }
                    proof {
                        assert(dash_contents(m) == apply_entry(
                            m_before,
                            record_key(suffix),
                            record_value(suffix),
                        ));
                        assert(bounded_index(dash_contents(m))) by {
                            assert forall|k: Seq<u8>| #[trigger]
                                dash_contents(m).contains_key(k) implies k.len() <= MAX_KEY_LEN
                                && 1 <= dash_contents(m)[k].len() <= MAX_VALUE_LEN by {
                                if k != record_key(suffix) {
                                    assert(m_before.contains_key(k) && dash_contents(m)[k]
                                        == m_before[k]);
                                } else {
                                    assert(dash_contents(m).contains_key(k) ==> record_value(
                                        suffix,
                                    ).len() != 0 && dash_contents(m)[k] == record_value(suffix));
                                }
                            }
                        };
                    }
                    pos = next;
                },
                None => {
                    return m;
                },
            }
        }
    }
}

} // verus!
