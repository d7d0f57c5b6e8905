//! Service descriptions as the runtime builder and the dependency graph see
//! them.
use vstd::prelude::*;
use vstd::utf8::{decode_utf8, encode_utf8, encode_utf8_decode_utf8};

use tokio_util::sync::CancellationToken;

use crate::runtime::types::{child_of_token, clone_token, RuntimeHandle};
use crate::util::{append_text, debug_quoted, quote_text};

verus! {

/// A stable, human-readable service name, as used in the dependency graph.
pub type ServiceName = &'static str;

/// What the runtime keeps of a registered service: its name, the names of the
/// services it depends on, and the factory that makes a runnable instance of
/// it. The runtime only reads the name and the dependencies; the factory is
/// carried through untouched.
pub struct ServiceSpec<F> {
    pub name: ServiceName,
    pub deps: Vec<ServiceName>,
    pub factory: F,
}

/// What each running service receives.
pub struct ServiceContext {
    /// The service's cancellation token (a child of the runtime's root token).
    pub cancel: CancellationToken,
    /// A handle to the runtime, to query or request shutdown.
    pub runtime: RuntimeHandle,
}

impl Clone for ServiceContext {
    fn clone(&self) -> (c: ServiceContext)
        ensures
            c.cancel == self.cancel,
            c.runtime.state() == self.runtime.state(),
    {
        ServiceContext { cancel: clone_token(&self.cancel), runtime: self.runtime.clone() }
    }
}

impl ServiceContext {
    /// A child of the service's token, for subtasks: cancelled whenever the
    /// service is.
    pub fn child_cancel(&self) -> (t: CancellationToken) {
        child_of_token(&self.cancel)
    }
}

/// Quoted texts joined by `", "`.
pub open spec fn join_quoted(items: Seq<Seq<char>>) -> Seq<char>
    decreases items.len(),
{
    if items.len() == 0 {
        Seq::empty()
    } else if items.len() == 1 {
        debug_quoted(items[0])
    } else {
        join_quoted(items.drop_last()) + ", "@ + debug_quoted(items.last())
    }
}

/// The debug text of a service spec, as `{:?}` writes it: the name and the
/// dependencies, the factory left out.
pub open spec fn service_spec_text(name: Seq<char>, deps: Seq<Seq<char>>) -> Seq<char> {
    "ServiceSpec { name: "@ + debug_quoted(name) + ", deps: ["@ + join_quoted(deps) + "], .. }"@
}

impl<F> ServiceSpec<F> {
    /// The debug text of this spec: `ServiceSpec { name: "a", deps: ["b"], .. }`.
    pub fn debug_string(&self) -> (s: String)
        ensures
            s@ == service_spec_text(self.name@, self.deps@.map_values(|d: ServiceName| d@)),
    {
        let ghost deps = self.deps@.map_values(|d: ServiceName| d@);
        let mut s = String::new();
        append_text(&mut s, "ServiceSpec { name: ");
        let quoted = quote_text(self.name);
        append_text(&mut s, quoted.as_str());
        append_text(&mut s, ", deps: [");
        let ghost head = s@;
        proof {
            assert(deps.take(0) =~= Seq::<Seq<char>>::empty());
            assert(head + join_quoted(deps.take(0)) =~= head);
        }
        let mut i: usize = 0;
        while i < self.deps.len()
            invariant
                i <= self.deps@.len(),
                deps == self.deps@.map_values(|d: ServiceName| d@),
                s@ == head + join_quoted(deps.take(i as int)),
            decreases self.deps@.len() - i,
        {
            let ghost before = s@;
            if i > 0 {
                append_text(&mut s, ", ");
            }
            let quoted = quote_text(self.deps[i]);
            append_text(&mut s, quoted.as_str());
            proof {
                let t = deps.take(i + 1);
                assert(t.drop_last() =~= deps.take(i as int));
                assert(t.last() == self.deps@[i as int]@);
                if i > 0 {
                    assert(s@ =~= head + join_quoted(t));
                } else {
                    assert(s@ =~= head + join_quoted(t));
                }
            }
            i = i + 1;
        }
        append_text(&mut s, "], .. }");
        proof {
            assert(deps.take(self.deps@.len() as int) =~= deps);
            assert(s@ =~= service_spec_text(self.name@, deps));
        }
        s
    }
}

/// Errors of registering or starting a service.
#[derive(Debug)]
pub enum ServiceStartError {
    /// The factory of the named service panicked.
    FactoryPanicked(ServiceName),
    /// A service of this name was already registered.
    Duplicate(ServiceName),
}

/// A failure of a service, with the name of the service that failed; `E` is
/// the failure itself.
#[derive(Debug)]
pub struct DynServiceError<E> {
    pub service: ServiceName,
    pub source: E,
}

/// Whether two names spell the same string (compared by their UTF-8 bytes).
pub fn names_match(a: &str, b: &str) -> (r: bool)
    ensures
        r == (a@ == b@),
{
    let ab = a.as_bytes();
    let bb = b.as_bytes();
    proof {
        encode_utf8_decode_utf8(a@);
        encode_utf8_decode_utf8(b@);
    }
    if ab.len() != bb.len() {
        return false;
    }
    let mut i: usize = 0;
    while i < ab.len()
        invariant
            ab@ == encode_utf8(a@),
            bb@ == encode_utf8(b@),
            ab@.len() == bb@.len(),
            i <= ab@.len(),
            forall|t: int| 0 <= t < i ==> ab@[t] == bb@[t],
        decreases ab@.len() - i,
    {
        if ab[i] != bb[i] {
            return false;
        }
        i = i + 1;
    }
    proof {
        assert(ab@ =~= bb@);
        assert(decode_utf8(encode_utf8(a@)) == a@);
        assert(decode_utf8(encode_utf8(b@)) == b@);
    }
    true
}

} // verus!
