//! Serving requests: the reply that a request gets.
use crate::frame::{error_debug, ErrorView, Frame, FrameView};
use crate::handler::{execute_command, spec_execute, Keyspace};
use crate::store::Store;
use vstd::prelude::*;

verus! {

/// The server; its network loop runs outside this library.
pub struct Server {}

impl Server {
    pub fn new() -> (s: Self)
        ensures
            s == (Server {  }),
    {
        Server {  }
    }
}

impl Default for Server {
    fn default() -> (s: Self)
        ensures
            s == (Server {  }),
    {
        Self::new()
    }
}

/// The frame sent back for a request: the command's reply, or, when the
/// command fails, an error frame `ERR ` followed by the error as `Debug` prints it.
pub open spec fn spec_response(request: FrameView, m: Keyspace) -> FrameView {
    match spec_execute(request, m).0 {
        Ok(f) => f,
        Err(e) => FrameView::Error("ERR "@ + error_debug(e)),
    }
}

/// Executes a request and gives the frame to send back.
pub fn respond(request: &Frame, store: &mut Store) -> (r: Frame)
    ensures
        r@ == spec_response(request@, old(store)@),
        final(store)@ == spec_execute(request@, old(store)@).1,
{
    match execute_command(request, store) {
        Ok(f) => f,
        Err(e) => {
            let mut msg = "ERR ".to_owned();
            msg.append(e.debug_text().as_str());
            Frame::Error(msg)
        },
    }
}

} // verus!

verus! {

/// Every request gets a reply from its command, and the frame sent back is
/// exactly that reply.
pub proof fn law_response_is_the_command_reply(request: FrameView, m: Keyspace)
    ensures
        spec_execute(request, m).0 is Ok,
        spec_response(request, m) == spec_execute(request, m).0->Ok_0,
        forall|f: FrameView| spec_execute(request, m).0 == Ok::<FrameView, ErrorView>(f) ==> spec_response(request, m) == f,
{
}

} // verus!
