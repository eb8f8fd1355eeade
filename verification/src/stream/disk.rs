//! Streams that are kept on disk.

use crate::adaptive::seq_sum;
use crate::error::{disk_stream_written, disk_stream_written_text, ErrorView, ExecutionResult};
use crate::shuffle_index::{index_entry, index_text, make_index_text};
use crate::stream::item::TaskStreamSinkState;
use crate::stream::LocalStream;
use std::path::PathBuf;
use vstd::prelude::*;
use vstd::string::*;

verus! {

/// A disk-backed stream that persists record batches to a data file and reads them back.
#[derive(Debug)]
pub struct DiskStream {
    file_path: PathBuf,
    is_written: bool,
}

/// A disk-backed stream as a mathematical value.
pub struct DiskStreamView {
    pub file_path: PathBuf,
    pub is_written: bool,
}

impl View for DiskStream {
    type V = DiskStreamView;

    closed spec fn view(&self) -> DiskStreamView {
        DiskStreamView { file_path: self.file_path, is_written: self.is_written }
    }
}

impl DiskStream {
    /// A stream that is kept in a file.
    pub fn new(file_path: PathBuf) -> (r: Self)
        ensures
            r@ == (DiskStreamView { file_path, is_written: false }),
    {
        DiskStream { file_path, is_written: false }
    }

    /// The file in which the stream is kept.
    pub fn file_path(&self) -> (r: &PathBuf)
        ensures
            *r == self@.file_path,
    {
        &self.file_path
    }
}

/// A reader of a disk-backed stream, which reads the file from its beginning.
#[derive(Debug)]
pub struct DiskStreamReader {}

impl LocalStream for DiskStream {
    type Sink = DiskStreamWriter;

    type Source = DiskStreamReader;

    open spec fn is_published(&self) -> bool {
        self@.is_written
    }

    /// Gives the stream to a writer, for which the file is to be created. That can be done once, even
    /// if the file cannot be created.
    fn publish(&mut self) -> (r: ExecutionResult<DiskStreamWriter>)
        ensures
            final(self)@ == (DiskStreamView { is_written: true, ..old(self)@ }),
            match r {
                Ok(writer) => !old(self)@.is_written && writer@ == (DiskWriterView {
                    state: DiskWriterState::Fresh,
                    bytes: 0,
                    records: 0,
                }),
                Err(e) => old(self)@.is_written && e@ == ErrorView::Internal(
                    disk_stream_written_text(),
                ),
            },
    {
        if self.is_written {
            return Err(disk_stream_written());
        }
        self.is_written = true;
        Ok(DiskStreamWriter { state: DiskWriterState::Fresh, bytes: 0, records: 0 })
    }

    /// Gives the stream to a reader, for which the file is to be opened. That can be done at any time
    /// and any number of times.
    fn subscribe(&mut self) -> (r: ExecutionResult<DiskStreamReader>)
        ensures
            final(self)@ == old(self)@,
            r is Ok,
    {
        Ok(DiskStreamReader {  })
    }
}

/// How far the writer of a disk-backed stream has come.
#[derive(Debug, Clone, Copy, PartialEq, Eq, Structural)]
pub enum DiskWriterState {
    /// The file is empty.
    Fresh,
    /// The stream has been started in the file.
    Open,
    /// The stream could not be started, or it has been given up.
    Spent,
}

/// What is to be done to write an item.
#[derive(Debug)]
pub enum DiskWriteStep {
    /// Start a stream with the schema of the item in the file.
    Start,
    /// Write the item to the stream.
    Write,
    /// Nothing: this has become of the sink.
    Done(TaskStreamSinkState),
}

/// Decides what is to be done to write the items of a disk-backed stream, and counts the bytes and
/// records that have been written.
#[derive(Debug)]
pub struct DiskStreamWriter {
    state: DiskWriterState,
    bytes: u64,
    records: usize,
}

/// The writer of a disk-backed stream as a mathematical value.
pub struct DiskWriterView {
    pub state: DiskWriterState,
    pub bytes: nat,
    pub records: nat,
}

impl View for DiskStreamWriter {
    type V = DiskWriterView;

    closed spec fn view(&self) -> DiskWriterView {
        DiskWriterView {
            state: self.state,
            bytes: self.bytes as nat,
            records: self.records as nat,
        }
    }
}

impl DiskWriterView {
    /// Whether some more bytes and records can be counted in machine words.
    pub open spec fn can_count(self, bytes: u64, records: usize) -> bool {
        self.bytes + bytes <= u64::MAX && self.records + records <= usize::MAX
    }

    /// The writer once an item of some bytes and records has been written. A stream that can no
    /// longer be counted is given up.
    pub open spec fn counted(self, bytes: u64, records: usize) -> DiskWriterView {
        if self.can_count(bytes, records) {
            DiskWriterView {
                bytes: self.bytes + bytes as nat,
                records: self.records + records as nat,
                ..self
            }
        } else {
            DiskWriterView { state: DiskWriterState::Spent, ..self }
        }
    }

    /// The writer once items of the given bytes and records have been written one after the other.
    pub open spec fn counted_all(self, items: Seq<(u64, usize)>) -> DiskWriterView
        decreases items.len(),
    {
        if items.len() == 0 {
            self
        } else {
            self.counted_all(items.drop_last()).counted(items.last().0, items.last().1)
        }
    }
}

/// What a disk-backed stream tells in its index file is what has been written to it: the sums of the
/// bytes and of the records of all items, as long as these can be counted in machine words.
pub proof fn lemma_index_counts_everything(writer: DiskWriterView, items: Seq<(u64, usize)>)
    requires
        writer.state is Open,
        writer.bytes + seq_sum(item_bytes(items)) <= u64::MAX,
        writer.records + seq_sum(item_records(items)) <= usize::MAX,
    ensures
        writer.counted_all(items) == (DiskWriterView {
            state: DiskWriterState::Open,
            bytes: writer.bytes + seq_sum(item_bytes(items)),
            records: writer.records + seq_sum(item_records(items)),
        }),
    decreases items.len(),
{
    if items.len() > 0 {
        let rest = items.drop_last();
        assert(item_bytes(items).drop_last() =~= item_bytes(rest));
        assert(item_records(items).drop_last() =~= item_records(rest));
        lemma_index_counts_everything(writer, rest);
    }
}

/// The bytes of items.
pub open spec fn item_bytes(items: Seq<(u64, usize)>) -> Seq<nat> {
    items.map_values(|i: (u64, usize)| i.0 as nat)
}

/// The records of items.
pub open spec fn item_records(items: Seq<(u64, usize)>) -> Seq<nat> {
    items.map_values(|i: (u64, usize)| i.1 as nat)
}

/// The message of the error with which a stream is given up that can no longer be counted.
pub open spec fn uncountable_text() -> Seq<char> {
    "disk stream has too much data to be counted"@
}

impl DiskStreamWriter {
    /// Begins to write an item, given the message of its error if it is one.
    ///
    /// An error is reported and not written. The stream is started with the first batch. If that has
    /// failed before, the sink is closed.
    pub fn write(&mut self, failure: Option<String>) -> (r: DiskWriteStep)
        ensures
            match failure {
                Some(message) => final(self)@ == old(self)@ && r == DiskWriteStep::Done(
                    TaskStreamSinkState::Error(message),
                ),
                None => match old(self)@.state {
                    DiskWriterState::Fresh => r is Start && final(self)@ == (DiskWriterView {
                        state: DiskWriterState::Spent,
                        ..old(self)@
                    }),
                    DiskWriterState::Open => r is Write && final(self)@ == old(self)@,
                    DiskWriterState::Spent => final(self)@ == old(self)@ && r
                        == DiskWriteStep::Done(TaskStreamSinkState::Closed),
                },
            },
    {
        if let Some(message) = failure {
            return DiskWriteStep::Done(TaskStreamSinkState::Error(message));
        }
        match self.state {
            DiskWriterState::Fresh => {
                self.state = DiskWriterState::Spent;
                DiskWriteStep::Start
            },
            DiskWriterState::Open => DiskWriteStep::Write,
            DiskWriterState::Spent => DiskWriteStep::Done(TaskStreamSinkState::Closed),
        }
    }

    /// Takes in whether the stream could be started, or the message of the error.
    pub fn started(&mut self, result: Result<(), String>) -> (r: DiskWriteStep)
        ensures
            match result {
                Ok(_) => r is Write && final(self)@ == (DiskWriterView {
                    state: DiskWriterState::Open,
                    ..old(self)@
                }),
                Err(message) => final(self)@ == old(self)@ && r == DiskWriteStep::Done(
                    TaskStreamSinkState::Error(message),
                ),
            },
    {
        match result {
            Ok(_) => {
                self.state = DiskWriterState::Open;
                DiskWriteStep::Write
            },
            Err(message) => DiskWriteStep::Done(TaskStreamSinkState::Error(message)),
        }
    }

    /// Takes in whether an item of some bytes and records could be written, or the message of the
    /// error. Only what could be written counts.
    pub fn written(&mut self, result: Result<(), String>, bytes: u64, records: usize) -> (r:
        TaskStreamSinkState)
        ensures
            match result {
                Ok(_) => {
                    &&& final(self)@ == old(self)@.counted(bytes, records)
                    &&& match r {
                        TaskStreamSinkState::Open => old(self)@.can_count(bytes, records),
                        TaskStreamSinkState::Error(message) => !old(self)@.can_count(
                            bytes,
                            records,
                        ) && message@ == uncountable_text(),
                        TaskStreamSinkState::Closed => false,
                    }
                },
                Err(message) => final(self)@ == old(self)@ && r == TaskStreamSinkState::Error(
                    message,
                ),
            },
    {
        match result {
            Ok(_) => match (self.bytes.checked_add(bytes), self.records.checked_add(records)) {
                (Some(all_bytes), Some(all_records)) => {
                    self.bytes = all_bytes;
                    self.records = all_records;
                    TaskStreamSinkState::Open
                },
                _ => {
                    self.state = DiskWriterState::Spent;
                    TaskStreamSinkState::Error(
                        String::from_str("disk stream has too much data to be counted"),
                    )
                },
            },
            Err(message) => TaskStreamSinkState::Error(message),
        }
    }

    /// Ends the stream. If there is one in the file, its end is to be marked there, and the result is
    /// the text of its index file: the bytes and the records that have been written. Otherwise there
    /// is neither an end to be marked nor an index file.
    pub fn close(self) -> (r: Option<String>)
        ensures
            r is Some <==> self@.state is Open,
            match r {
                Some(text) => {
                    &&& text@ == index_text(self@.bytes, self@.records)
                    &&& index_entry(text@) == Some((self@.bytes, self@.records))
                },
                None => true,
            },
    {
        match self.state {
            DiskWriterState::Open => Some(make_index_text(self.bytes, self.records)),
            _ => None,
        }
    }
}

}
