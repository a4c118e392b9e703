//! The request dispatcher: one response for each request.

use crate::engine::KvsEngine;
use crate::protocol::{GetResponse, Protocol, RemoveResponse, Response, SetResponse};
use vstd::prelude::*;

verus! {

/// The server of the key–value store, tied to a storage engine.
///
/// The server answers one request at a time. It hands the request to the
/// engine and turns what the engine returns into the response; an engine
/// error becomes a response and does not stop the server.
pub struct KvsServer<E: KvsEngine> {
    engine: E,
}

impl<E: KvsEngine> KvsServer<E> {
    /// The engine that the server is tied to.
    pub closed spec fn inner(&self) -> E {
        self.engine
    }

    /// Creates a `KvsServer` tied to a storage engine.
    pub fn new(engine: E) -> (server: Self)
        ensures
            server.inner() == engine,
    {
        KvsServer { engine }
    }

    /// The engine that the server is tied to.
    pub fn engine(&self) -> (engine: &E)
        ensures
            *engine == self.inner(),
    {
        &self.engine
    }

    /// The engine that the server is tied to, for changing it.
    pub fn engine_mut(&mut self) -> (engine: &mut E)
        ensures
            *engine == old(self).inner(),
            final(self).inner() == *final(engine),
    {
        &mut self.engine
    }

    /// Gives the engine back.
    pub fn into_engine(self) -> (engine: E)
        ensures
            engine == self.inner(),
    {
        self.engine
    }

    /// Answers one request.
    ///
    /// The request is handed to the engine with its own key and value, and
    /// the response has the shape of the request. Where the engine succeeds
    /// the response says so, and the engine's contents have changed as the
    /// request asked; where it fails the response carries the error's text.
    /// A reliable engine always answers a `Get` with a value and a `Put`
    /// with `Done`; it answers a `Remove` with `Done` exactly when the key
    /// was there, and else with the text of `KeyNotFound`.
    pub fn handle(&mut self, request: Protocol) -> (response: Response)
        requires
            old(self).inner().valid(),
        ensures
            final(self).inner().valid(),
            final(self).inner().reliable() == old(self).inner().reliable(),
            match request {
                Protocol::Get { key } => {
                    &&& final(self).inner().contents() == old(self).inner().contents()
                    &&& response matches Response::Got(answer)
                    &&& old(self).inner().reliable() ==> answer is Value
                    &&& answer matches GetResponse::Value(Some(value)) ==> {
                        &&& old(self).inner().contents().contains_key(key@)
                        &&& old(self).inner().contents()[key@] == value@
                    }
                    &&& answer matches GetResponse::Value(None) ==> !old(self).inner().contents().contains_key(key@)
                },
                Protocol::Put { key, value } => {
                    &&& response matches Response::Stored(answer)
                    &&& old(self).inner().reliable() ==> answer is Done
                    &&& answer is Done ==> final(self).inner().contents() == old(self).inner().contents().insert(key@, value@)
                },
                Protocol::Remove { key } => {
                    &&& response matches Response::Removed(answer)
                    &&& old(self).inner().reliable() ==> (answer is Done <==> old(self).inner().contents().contains_key(key@))
                    &&& old(self).inner().reliable() ==> (answer matches RemoveResponse::Failure(
                        text,
                    ) ==> text@ == "Key not found error"@ && final(self).inner().contents()
                        == old(self).inner().contents())
                    &&& answer is Done ==> {
                        &&& old(self).inner().contents().contains_key(key@)
                        &&& final(self).inner().contents() == old(self).inner().contents().remove(key@)
                    }
                },
            },
    {
        match request {
            Protocol::Get { key } => Response::Got(GetResponse::from_result(self.engine.get(key))),
            Protocol::Put { key, value } => Response::Stored(
                SetResponse::from_result(self.engine.set(key, value)),
            ),
            Protocol::Remove { key } => Response::Removed(
                RemoveResponse::from_result(self.engine.remove(key)),
            ),
        }
    }
}

} // verus!
