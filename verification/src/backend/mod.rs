//! The frontend's side of the protocol of the pop-launcher service.

use vstd::prelude::*;
use pop_launcher::{Indice, Request};

verus! {

#[verifier::external_type_specification]
#[verifier::external_body]
pub struct ExRequest(Request);

/// A request to the launcher service.
#[derive(Debug, Clone)]
pub enum PopRequest {
    Activate(Indice),
    ActivateContext { id: Indice, context: Indice },
    Complete(Indice),
    Context(Indice),
    Exit,
    Interrupt,
    Quit(Indice),
    Search(String),
}

/// The request of the same name and fields as a `pop_launcher::Request`,
/// one variant for one. The outside request is opaque here, so which request
/// that is cannot be spelled out; it is a function of the request alone.
pub uninterp spec fn request_fields_of(request: Request) -> PopRequest;

/// Reads a `pop_launcher::Request` into the request of the same name and
/// fields, one variant for one. Trusted: the result is the named
/// `request_fields_of(request)`; which variant and fields that is, is not
/// stated.
#[verifier::external_body]
fn request_fields(request: Request) -> (r: PopRequest)
    ensures
        r == request_fields_of(request),
{
    match request {
        Request::Activate(id) => PopRequest::Activate(id),
        Request::ActivateContext { id, context } => PopRequest::ActivateContext { id, context },
        Request::Complete(id) => PopRequest::Complete(id),
        Request::Context(id) => PopRequest::Context(id),
        Request::Exit => PopRequest::Exit,
        Request::Interrupt => PopRequest::Interrupt,
        Request::Quit(id) => PopRequest::Quit(id),
        Request::Search(query) => PopRequest::Search(query),
    }
}

/// The request that the frontend sends for `request`: the same request, but
/// quitting an item ends the service.
pub open spec fn normalized(request: PopRequest) -> PopRequest {
    match request {
        PopRequest::Quit(_) => PopRequest::Exit,
        other => other,
    }
}

impl PopRequest {
    /// The frontend's request for a request of the launcher service: the
    /// request of the same name and fields, but quitting an item ends the
    /// service.
    pub fn from(request: Request) -> (r: PopRequest)
        ensures
            r == normalized(request_fields_of(request)),
            !(r is Quit),
    {
        Self::normalize(request_fields(request))
    }

    /// The same request, but quitting an item ends the service.
    pub fn normalize(self) -> (r: PopRequest)
        ensures
            r == normalized(self),
    {
        match self {
            PopRequest::Quit(_) => PopRequest::Exit,
            other => other,
        }
    }
}

/// Normalizing a request twice is normalizing it once, and only a request to
/// quit an item changes.
pub proof fn lemma_normalized_idempotent(request: PopRequest)
    ensures
        normalized(normalized(request)) == normalized(request),
        !(request is Quit) ==> normalized(request) == request,
        !(normalized(request) is Quit),
{
}

/// The graphics card on which to launch an application.
#[derive(Debug, Clone, Copy, PartialEq, Eq, Structural)]
pub enum PopGpuPreference {
    Default,
    NonDefault,
}

/// An extra action offered for a search result.
#[derive(Debug, Clone)]
pub struct PopContextOption {
    pub id: Indice,
    pub name: String,
}

/// A response of the launcher service.
#[derive(Debug, Clone)]
pub enum PopResponse {
    Close,
    Context { id: Indice, context: Vec<PopGpuPreference> },
    DesktopEntry,
    Update,
    Fill,
}

} // verus!
