use vstd::prelude::*;

use crate::req::Req;
use crate::res::Res;

verus! {

/// What a request handler does: read the request, write into the
/// response. The callables themselves live with the embedding process,
/// which keys them by the identifiers the router stores.
pub trait Handle {
    fn handle(&mut self, request: &mut Req, response: &mut Res);
}

} // verus!
