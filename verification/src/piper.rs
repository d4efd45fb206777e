//! Request routing by package id: each handler is registered under the id
//! of the requests that it answers, and a request goes to the handler
//! registered under its package id.

use crate::g::{Error, Result};
use crate::nw::pack::{package_id_of, Package};
use std::collections::HashMap;
use vstd::prelude::*;

verus! {

broadcast use vstd::std_specs::hash::group_hash_axioms;

/// The handlers, each under the request id that it answers.
pub struct Handlers<H> {
    map: HashMap<u16, H>,
}

impl<H> View for Handlers<H> {
    type V = Map<u16, H>;

    closed spec fn view(&self) -> Map<u16, H> {
        self.map@
    }
}

/// What registering `handler` under `request_id` returns, and the handlers
/// after it: refused with `PiperHandlerAreadyExists` and the id, changing
/// nothing, when a handler is registered under the id already.
pub open spec fn regist_result<H>(m: Map<u16, H>, request_id: u16, handler: H) -> (
    Result<()>,
    Map<u16, H>,
) {
    if m.contains_key(request_id) {
        (Err(Error::PiperHandlerAreadyExists(request_id)), m)
    } else {
        (Ok(()), m.insert(request_id, handler))
    }
}

/// The handler that answers a request with package id `id`:
/// `PiperPIDInvalid` when none is registered under it.
pub open spec fn route_result<H>(m: Map<u16, H>, id: u16) -> Result<H> {
    if m.contains_key(id) {
        Ok(m[id])
    } else {
        Err(Error::PiperPIDInvalid)
    }
}

impl<H> Handlers<H> {
    /// No handler registered.
    pub fn new() -> (h: Handlers<H>)
        ensures
            h@ == Map::<u16, H>::empty(),
    {
        Handlers { map: HashMap::new() }
    }

    /// Registers `handler` under `request_id`; see `regist_result`.
    pub fn regist(&mut self, request_id: u16, handler: H) -> (r: Result<()>)
        ensures
            (r, final(self)@) == regist_result(old(self)@, request_id, handler),
    {
        if self.map.contains_key(&request_id) {
            return Err(Error::PiperHandlerAreadyExists(request_id));
        }
        self.map.insert(request_id, handler);
        Ok(())
    }

    /// The handler registered under `id`, if any.
    pub fn get(&self, id: u16) -> (r: Option<&H>)
        ensures
            self@.contains_key(id) ==> r == Some(&self@[id]),
            !self@.contains_key(id) ==> r is None,
    {
        self.map.get(&id)
    }
}

/// The router of requests to their handlers.
#[derive(Clone, Copy)]
pub struct Piper;

impl Piper {
    /// The handler that answers `req`, by its package id; see
    /// `route_result`.
    pub fn on_process<'a, H>(&self, handlers: &'a Handlers<H>, req: &Package) -> (r: Result<&'a H>)
        requires
            req.wf(),
        ensures
            match r {
                Ok(h) => route_result(handlers@, package_id_of(req@.raw) as u16) == Ok::<H, Error>(*h),
                Err(e) => route_result(handlers@, package_id_of(req@.raw) as u16) == Err::<H, Error>(e),
            },
    {
        match handlers.get(req.package_id()) {
            None => Err(Error::PiperPIDInvalid),
            Some(h) => Ok(h),
        }
    }
}

/// A handler registered under a free id answers the requests with that
/// package id, and a second registration under the same id is refused with
/// the first handler kept.
pub proof fn lemma_regist_then_route<H>(m: Map<u16, H>, id: u16, handler: H, other: H)
    requires
        !m.contains_key(id),
    ensures
        regist_result(m, id, handler).0 is Ok,
        route_result(regist_result(m, id, handler).1, id) == Ok::<H, Error>(handler),
        regist_result(regist_result(m, id, handler).1, id, other) == (
            Err::<(), Error>(Error::PiperHandlerAreadyExists(id)),
            regist_result(m, id, handler).1,
        ),
{
}

/// Registering a handler leaves the routing of every other package id as
/// it was.
pub proof fn lemma_regist_keeps_others<H>(m: Map<u16, H>, id: u16, handler: H, pid: u16)
    requires
        pid != id,
    ensures
        route_result(regist_result(m, id, handler).1, pid) == route_result(m, pid),
{
}

} // verus!
