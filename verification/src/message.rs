//! What a log holds: rows that change at a time, and statements of progress.

use vstd::prelude::*;

verus! {

/// A row in its packed form. Rows are compared byte by byte.
#[derive(Debug, PartialEq, Eq)]
pub struct Row {
    pub data: Vec<u8>,
}

impl View for Row {
    type V = Seq<u8>;

    open spec fn view(&self) -> Seq<u8> {
        self.data@
    }
}

impl Row {
    /// A row of the given bytes.
    pub fn new(data: Vec<u8>) -> (r: Self)
        ensures
            r@ == data@,
    {
        Row { data }
    }

    /// Whether two rows hold the same bytes.
    pub fn same(&self, other: &Self) -> (r: bool)
        ensures
            r == (self@ == other@),
    {
        if self.data.len() != other.data.len() {
            return false;
        }
        let mut i: usize = 0;
        while i < self.data.len()
            invariant
                i <= self.data.len(),
                self.data.len() == other.data.len(),
                forall|j: int| 0 <= j < i ==> self.data@[j] == other.data@[j],
            decreases self.data.len() - i,
        {
            if self.data[i] != other.data[i] {
                return false;
            }
            i += 1;
        }
        assert(self@ =~= other@);
        true
    }
}

/// A change of `diff` copies of `row` at `timestamp`.
#[derive(Debug, PartialEq, Eq)]
pub struct Update {
    pub row: Row,
    pub timestamp: u64,
    pub diff: isize,
}

/// A message of a log: a change, or the statement that the log is complete up to a time.
#[derive(Debug, PartialEq, Eq)]
pub enum Message {
    Data(Update),
    Progress(u64),
}

/// The value of an [`Update`].
#[verifier::ext_equal]
pub struct UpdateView {
    pub row: Seq<u8>,
    pub timestamp: u64,
    pub diff: isize,
}

/// The value of a [`Message`].
#[verifier::ext_equal]
pub enum MessageView {
    Data(UpdateView),
    Progress(u64),
}

impl View for Update {
    type V = UpdateView;

    open spec fn view(&self) -> UpdateView {
        UpdateView { row: self.row@, timestamp: self.timestamp, diff: self.diff }
    }
}

impl View for Message {
    type V = MessageView;

    open spec fn view(&self) -> MessageView {
        match self {
            Message::Data(update) => MessageView::Data(update@),
            Message::Progress(time) => MessageView::Progress(*time),
        }
    }
}

/// The values of a sequence of messages.
pub open spec fn message_views(messages: Seq<Message>) -> Seq<MessageView> {
    messages.map_values(|m: Message| m@)
}

impl Message {
    /// Whether two messages hold the same value.
    pub fn same(&self, other: &Self) -> (r: bool)
        ensures
            r == (self@ == other@),
    {
        match (self, other) {
            (Message::Data(a), Message::Data(b)) => {
                a.timestamp == b.timestamp && a.diff == b.diff && a.row.same(&b.row)
            },
            (Message::Progress(a), Message::Progress(b)) => *a == *b,
            _ => false,
        }
    }
}

} // verus!
