use vstd::prelude::*;

use crate::stream::Stream;
use crate::stream_sink::StreamSink;

verus! {

/// What can stand for a stream.
pub trait IsStream {
    /// The stream that this value stands for.
    spec fn stream_of(&self) -> Stream;

    fn to_stream(self) -> (s: Stream)
        ensures
            s == self.stream_of(),
    ;
}

impl IsStream for Stream {
    open spec fn stream_of(&self) -> Stream {
        *self
    }

    fn to_stream(self) -> (s: Stream) {
        self
    }
}

impl IsStream for StreamSink {
    open spec fn stream_of(&self) -> Stream {
        Stream { node: self.node }
    }

    fn to_stream(self) -> (s: Stream) {
        Stream { node: self.node }
    }
}

impl<'r, SA: Copy + IsStream> IsStream for &'r SA {
    open spec fn stream_of(&self) -> Stream {
        (**self).stream_of()
    }

    fn to_stream(self) -> Stream {
        (*self).to_stream()
    }
}

} // verus!
