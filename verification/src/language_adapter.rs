//! The adapter abstraction: the capability interface every language adapter
//! offers, the opaque handle values that cross the module boundary, and the
//! adapter-side state of the initialization handshake.

use vstd::prelude::*;

use crate::error::ScriptApiError;
use crate::script_api::ScriptApi;
use crate::script_api::ScriptTypeV;

verus! {

/// A pass-by-pointer, type-erased value exchanged across the module
/// boundary. It carries an address as a plain value and nothing else: no
/// type tag and no length. The host never reads through a handle; caller
/// and callee must already agree, through the declared function signature,
/// on what it stands for.
///
/// Ownership convention: the protocol never owns the pointee. An argument
/// handle is borrowed from the caller and a returned handle is borrowed
/// from the callee, each for at least the duration of the call; whichever
/// side allocated the value remains responsible for freeing it.
#[derive(Debug, Clone, Copy, PartialEq, Eq, Structural)]
pub struct OpaqueHandle {
    /// The address this handle stands for.
    pub addr: usize,
}

impl OpaqueHandle {
    /// The handle standing for the given address.
    pub fn new(addr: usize) -> (r: Self)
        ensures
            r.addr == addr,
    {
        OpaqueHandle { addr }
    }

    /// A null handle, for calls that return nothing.
    pub fn null() -> (r: Self)
        ensures
            r.addr == 0,
    {
        OpaqueHandle { addr: 0 }
    }
}

/// A unit that exposes callable functions and type descriptions: either
/// linked into the host or loaded from a dynamic module.
pub trait LanguageAdapter {
    /// The catalog this adapter exposes, as specifications see it. An
    /// adapter implementation overrides this with its own catalog's value.
    open spec fn spec_api(&self) -> Seq<(Seq<char>, ScriptTypeV)> {
        Seq::empty()
    }

    /// Get the catalog provided by this language adapter.
    fn get_api(&self) -> (r: ScriptApi)
        ensures
            r@ == self.spec_api(),
            r.wf(),
    ;

    /// Call a function provided by the language adapter. The host resolves
    /// the path before forwarding, so the path is always one of this
    /// adapter's own; the adapter never reports it as missing.
    fn call_function(&self, path: &str, args: &Vec<OpaqueHandle>) -> (r: Result<
        OpaqueHandle,
        ScriptApiError,
    >)
        requires
            exists|i: int| 0 <= i < self.spec_api().len() && self.spec_api()[i].0 == path@,
        ensures
            !(r matches Err(ScriptApiError::NotFound(_))),
    ;
}

/// Implemented by adapters that can live in a dynamically loaded module.
pub trait DynamicLibLanguageAdapter: Sized {
    /// Initialize the language adapter.
    fn init_adapter() -> Self;
}

/// The adapter-side state of the initialization handshake. A loaded module
/// receives the host's callback bundle through its `init_adapter` export,
/// which may be called more than once; only the first call stores the
/// bundle, so initializing is idempotent.
pub struct AdapterInitState<H> {
    host: Option<H>,
}

impl<H> AdapterInitState<H> {
    /// The stored host callback bundle, if any.
    pub closed spec fn spec_host(self) -> Option<H> {
        self.host
    }

    /// The state after one more `init` with the given bundle.
    pub closed spec fn spec_init(self, h: H) -> AdapterInitState<H> {
        match self.host {
            Some(_) => self,
            None => AdapterInitState { host: Some(h) },
        }
    }

    /// Whether a bundle has been stored.
    pub open spec fn initialized(self) -> bool {
        self.spec_host() is Some
    }

    /// The state before any initialization.
    pub fn new() -> (r: Self)
        ensures
            !r.initialized(),
            r.spec_host() is None,
    {
        AdapterInitState { host: None }
    }

    /// Record the host's callback bundle. The first call stores it; every
    /// later call leaves the state exactly as it was.
    pub fn init(&mut self, h: H)
        ensures
            *final(self) == old(self).spec_init(h),
            final(self).initialized(),
            !old(self).initialized() ==> final(self).spec_host() == Some(h),
            old(self).initialized() ==> *final(self) == *old(self),
    {
        if self.host.is_none() {
            self.host = Some(h);
        }
    }

    /// The stored bundle.
    pub fn host(&self) -> (r: &Option<H>)
        ensures
            *r == self.spec_host(),
    {
        &self.host
    }
}

/// Initializing twice, with any two bundles, leaves the same state as the
/// first initialization alone.
pub proof fn lemma_init_idempotent<H>(s: AdapterInitState<H>, h1: H, h2: H)
    ensures
        s.spec_init(h1).spec_init(h2) == s.spec_init(h1),
{
}

/// The host-callback bridge: what the host exposes to every adapter so an
/// adapter can query the merged catalog and call into any other adapter.
pub trait HostFunctions {
    /// The host-side state is in working order. A host implementation
    /// overrides this with its own invariant.
    open spec fn host_wf(&self) -> bool {
        true
    }

    /// Get the full scripting API: the union of all adapters' catalogs.
    /// A bridge that has to rebuild the catalog from its wire form reports
    /// malformed bytes as a recoverable protocol error.
    fn get_full_api(&self) -> Result<ScriptApi, ScriptApiError>
        requires
            self.host_wf(),
    ;

    /// Call a function registered anywhere in the merged catalog.
    fn call_function(&self, path: &str, args: &Vec<OpaqueHandle>) -> Result<
        OpaqueHandle,
        ScriptApiError,
    >
        requires
            self.host_wf(),
    ;
}

} // verus!
