//! The tagged values that travel over the wire, as requests and as replies.

use vstd::prelude::*;

verus! {

/// One protocol value, as held by executable code.
#[derive(Debug, PartialEq, Eq)]
pub enum Frame {
    /// The absent bulk string.
    Null,
    /// The absent array.
    NullArray,
    /// A short line of text that signals success.
    SimpleString(String),
    /// A short line of text that signals failure.
    Error(String),
    /// A signed 64-bit integer.
    Integer(i64),
    /// A length-prefixed string.
    BulkString(String),
    /// An ordered sequence of values.
    Array(Vec<Frame>),
}

/// The mathematical model of a [`Frame`]: text as sequences of characters,
/// arrays as sequences of models.
pub enum FrameView {
    Null,
    NullArray,
    SimpleString(Seq<char>),
    Error(Seq<char>),
    Integer(i64),
    BulkString(Seq<char>),
    Array(Seq<FrameView>),
}

/// The models of a sequence of values, element by element.
pub open spec fn view_items(items: Seq<Frame>) -> Seq<FrameView>
    decreases items, 0nat,
{
    Seq::new(
        items.len(),
        |i: int|
            if 0 <= i < items.len() {
                frame_view(items[i])
            } else {
                FrameView::Null
            },
    )
}

/// The model of one value.
pub open spec fn frame_view(v: Frame) -> FrameView
    decreases v, 1nat,
{
    match v {
        Frame::Null => FrameView::Null,
        Frame::NullArray => FrameView::NullArray,
        Frame::SimpleString(s) => FrameView::SimpleString(s@),
        Frame::Error(s) => FrameView::Error(s@),
        Frame::Integer(i) => FrameView::Integer(i),
        Frame::BulkString(s) => FrameView::BulkString(s@),
        Frame::Array(items) => FrameView::Array(view_items(items@)),
    }
}

impl View for Frame {
    type V = FrameView;

    open spec fn view(&self) -> FrameView {
        frame_view(*self)
    }
}

impl Clone for Frame {
    fn clone(&self) -> (copy: Frame)
        ensures
            copy@ == self@,
        decreases self,
    {
        match self {
            Frame::Null => Frame::Null,
            Frame::NullArray => Frame::NullArray,
            Frame::SimpleString(text) => Frame::SimpleString(text.clone()),
            Frame::Error(text) => Frame::Error(text.clone()),
            Frame::Integer(i) => Frame::Integer(*i),
            Frame::BulkString(text) => Frame::BulkString(text.clone()),
            Frame::Array(items) => {
                let mut copies: Vec<Frame> = Vec::new();
                let mut i: usize = 0;
                while i < items.len()
                    invariant
                        i <= items.len(),
                        decreases_to!(self => items),
                        copies@.len() == i,
                        forall|j: int| 0 <= j < i ==> (#[trigger] copies@[j])@ == items@[j]@,
                    decreases items.len() - i,
                {
                    copies.push(items[i].clone());
                    i += 1;
                }
                assert(view_items(copies@) =~= view_items(items@));
                Frame::Array(copies)
            },
        }
    }
}

} // verus!
