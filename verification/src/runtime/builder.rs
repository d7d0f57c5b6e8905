//! Registering services and building a runtime from them.
use vstd::prelude::*;
use std::sync::Arc;
use std::time::Duration;

use crate::runtime::dag::{resolve, resolve_upto};
use crate::runtime::types::{Runtime, RuntimeInner};
use crate::service::{names_match, ServiceName, ServiceSpec, ServiceStartError};
use crate::util::default_timeout;

verus! {

/// No two specs share a name.
pub open spec fn names_distinct<F>(specs: Seq<ServiceSpec<F>>) -> bool {
    forall|i: int, j: int| 0 <= i < j < specs.len() ==> specs[i].name@ != specs[j].name@
}

/// Some spec has the name `name`.
pub open spec fn name_taken<F>(specs: Seq<ServiceSpec<F>>, name: Seq<char>) -> bool {
    exists|i: int| 0 <= i < specs.len() && #[trigger] specs[i].name@ == name
}

/// Among specs with distinct names, a name refers to the one spec that has it,
/// so every dependency of a built runtime means exactly one service.
pub proof fn lemma_names_resolve_uniquely<F>(specs: Seq<ServiceSpec<F>>, i: int)
    requires
        specs.len() <= usize::MAX,
        names_distinct(specs),
        0 <= i < specs.len(),
    ensures
        resolve(specs, specs[i].name@) == Some(i as usize),
{
    lemma_resolve_upto_from(specs, i, specs.len() as int);
}

proof fn lemma_resolve_upto_from<F>(specs: Seq<ServiceSpec<F>>, i: int, n: int)
    requires
        specs.len() <= usize::MAX,
        names_distinct(specs),
        0 <= i < n <= specs.len(),
    ensures
        resolve_upto(specs, specs[i].name@, n) == Some(i as usize),
    decreases n,
{
    if n - 1 != i {
        lemma_resolve_upto_from(specs, i, n - 1);
    }
}

/// Collects services and their dependencies; `F` is the type of the factories
/// that make runnable instances of them.
pub struct RuntimeBuilder<F> {
    specs: Vec<ServiceSpec<F>>,
    shutdown_timeout: Option<Duration>,
}

impl<F> RuntimeBuilder<F> {
    /// Registered names never repeat.
    #[verifier::type_invariant]
    spec fn well_formed(self) -> bool {
        names_distinct(self.specs@)
    }

    /// The services registered so far, in registration order.
    pub closed spec fn registered(self) -> Seq<ServiceSpec<F>> {
        self.specs@
    }

    /// The shutdown timeout set, if any.
    pub closed spec fn timeout_setting(self) -> Option<Duration> {
        self.shutdown_timeout
    }

    /// An empty builder with no timeout set.
    pub fn new() -> (b: RuntimeBuilder<F>)
        ensures
            b.registered().len() == 0,
            b.timeout_setting() is None,
    {
        RuntimeBuilder { specs: Vec::new(), shutdown_timeout: None }
    }

    /// Sets how long the runtime waits for services to stop after
    /// cancellation.
    pub fn shutdown_timeout(self, d: Duration) -> (b: RuntimeBuilder<F>)
        ensures
            b.registered() == self.registered(),
            b.timeout_setting() == Some(d),
    {
        proof {
            use_type_invariant(&self);
        }
        RuntimeBuilder { specs: self.specs, shutdown_timeout: Some(d) }
    }

    /// Registers the service `name` with the names of the services it depends
    /// on. Fails with `Duplicate(name)` exactly when a service of that name is
    /// already registered; otherwise the service is appended.
    pub fn service(self, name: ServiceName, deps: &[ServiceName], factory: F) -> (r: Result<
        RuntimeBuilder<F>,
        ServiceStartError,
    >)
        ensures
            r is Err <==> name_taken(self.registered(), name@),
            r matches Err(e) ==> e == ServiceStartError::Duplicate(name),
            r matches Ok(b) ==> {
                &&& b.registered().len() == self.registered().len() + 1
                &&& b.registered().take(self.registered().len() as int) == self.registered()
                &&& b.registered().last().name == name
                &&& b.registered().last().deps@ == deps@
                &&& b.registered().last().factory == factory
                &&& b.timeout_setting() == self.timeout_setting()
            },
    {
        proof {
            use_type_invariant(&self);
        }
        let mut i: usize = 0;
        while i < self.specs.len()
            invariant
                i <= self.specs@.len(),
                forall|j: int| 0 <= j < i ==> self.specs@[j].name@ != name@,
            decreases self.specs@.len() - i,
        {
            if names_match(self.specs[i].name, name) {
                return Err(ServiceStartError::Duplicate(name));
            }
            i = i + 1;
        }
        let deps = vstd::slice::slice_to_vec(deps);
        let RuntimeBuilder { specs, shutdown_timeout } = self;
        let mut specs = specs;
        let ghost before = specs@;
        specs.push(ServiceSpec { name, deps, factory });
        proof {
            assert(specs@.take(before.len() as int) =~= before);
            assert(names_distinct(specs@));
        }
        Ok(RuntimeBuilder { specs, shutdown_timeout })
    }

    /// Registers a service with no dependencies.
    pub fn service0(self, name: ServiceName, factory: F) -> (r: Result<
        RuntimeBuilder<F>,
        ServiceStartError,
    >)
        ensures
            r is Err <==> name_taken(self.registered(), name@),
            r matches Err(e) ==> e == ServiceStartError::Duplicate(name),
            r matches Ok(b) ==> {
                &&& b.registered().len() == self.registered().len() + 1
                &&& b.registered().take(self.registered().len() as int) == self.registered()
                &&& b.registered().last().name == name
                &&& b.registered().last().deps@.len() == 0
                &&& b.registered().last().factory == factory
                &&& b.timeout_setting() == self.timeout_setting()
            },
    {
        self.service(name, &[], factory)
    }

    /// The runtime of the registered services, with the timeout set (or the
    /// default one).
    pub fn build(self) -> (rt: Runtime<F>)
        ensures
            rt.services() == self.registered(),
            names_distinct(rt.services()),
            rt.state().shutdown_timeout == match self.timeout_setting() {
                Some(d) => d,
                None => default_timeout(),
            },
    {
        proof {
            use_type_invariant(&self);
        }
        let RuntimeBuilder { specs, shutdown_timeout } = self;
        Runtime::from_parts(Arc::new(RuntimeInner::new(shutdown_timeout)), specs)
    }
}

impl<F> Default for RuntimeBuilder<F> {
    fn default() -> (b: RuntimeBuilder<F>)
        ensures
            b.registered().len() == 0,
            b.timeout_setting() is None,
    {
        RuntimeBuilder::new()
    }
}

} // verus!
