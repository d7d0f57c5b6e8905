//! Shared runtime state, the handle services use to reach it, and the
//! runtime's error type.
use vstd::prelude::*;
use std::sync::Arc;
use std::sync::atomic::AtomicBool;
use std::sync::atomic::AtomicU8;
use std::sync::atomic::Ordering;
use std::time::Duration;

use tokio::sync::Notify;
use tokio_util::sync::CancellationToken;

use crate::runtime::builder::names_distinct;
use crate::runtime::dag::DagError;
use crate::service::{DynServiceError, ServiceSpec};
use crate::util::{append_text, decimal_digits, decimal_text, default_shutdown_timeout};

verus! {

// ---------------------------------------------------------------------------
// Outside types used by the runtime's shared state.
// ---------------------------------------------------------------------------

/// tokio-util's cancellation token, carried as an opaque value.
#[verifier::external_type_specification]
#[verifier::external_body]
pub struct ExCancellationToken(tokio_util::sync::CancellationToken);

/// tokio's `Notify`, carried as an opaque value.
#[verifier::external_type_specification]
#[verifier::external_body]
pub struct ExNotify(tokio::sync::Notify);

/// Calls `CancellationToken::new`: a fresh token that is not cancelled. Its
/// state lives behind shared references, so nothing is stated of it.
#[verifier::external_body]
pub(crate) fn new_cancellation_token() -> (t: CancellationToken) {
    CancellationToken::new()
}

/// Calls `CancellationToken::cancel`: cancels the token and all its children.
/// The effect is on state shared behind the token, so nothing is stated.
#[verifier::external_body]
pub(crate) fn cancel_token(t: &CancellationToken) {
    t.cancel()
}

/// Calls `CancellationToken::child_token`: a token that is cancelled whenever
/// `t` is. Nothing is stated of the result.
#[verifier::external_body]
pub(crate) fn child_of_token(t: &CancellationToken) -> (c: CancellationToken) {
    t.child_token()
}

/// Calls `<CancellationToken as Clone>::clone`. Its source builds a token
/// whose only field is a clone of the original's `Arc` to the same tree node
/// (and the crate's `PartialEq` calls two tokens equal exactly when they share
/// that node), so the clone is the same token as the original.
#[verifier::external_body]
pub(crate) fn clone_token(t: &CancellationToken) -> (c: CancellationToken)
    ensures
        c == *t,
{
    t.clone()
}

/// Calls `Notify::new`: a notifier with no stored permit.
#[verifier::external_body]
pub(crate) fn new_notify() -> (n: Notify) {
    Notify::new()
}

/// Calls `Notify::notify_waiters`: wakes every task waiting right now. The
/// effect is on shared state, so nothing is stated.
#[verifier::external_body]
pub(crate) fn wake_waiters(n: &Notify) {
    n.notify_waiters()
}

/// Calls `<Arc<T> as Clone>::clone`: another pointer to the same value.
#[verifier::external_body]
pub(crate) fn share<T>(a: &Arc<T>) -> (r: Arc<T>)
    ensures
        r == *a,
{
    a.clone()
}

// ---------------------------------------------------------------------------
// Shutdown reasons.
// ---------------------------------------------------------------------------

/// Why the runtime shuts down.
#[derive(Debug, Clone, Copy, PartialEq, Eq, Structural)]
pub enum ShutdownReason {
    Requested,
    ServiceFailed,
    Signal,
}

/// The byte that stands for each reason.
pub open spec fn reason_code(r: ShutdownReason) -> u8 {
    match r {
        ShutdownReason::Requested => 1,
        ShutdownReason::ServiceFailed => 2,
        ShutdownReason::Signal => 3,
    }
}

/// The reason a byte stands for; any unknown byte reads as `Requested`.
pub open spec fn reason_of_code(v: u8) -> ShutdownReason {
    if v == 2 {
        ShutdownReason::ServiceFailed
    } else if v == 3 {
        ShutdownReason::Signal
    } else {
        ShutdownReason::Requested
    }
}

impl ShutdownReason {
    /// The byte that stands for this reason.
    pub fn as_u8(self) -> (v: u8)
        ensures
            v == reason_code(self),
    {
        match self {
            ShutdownReason::Requested => 1,
            ShutdownReason::ServiceFailed => 2,
            ShutdownReason::Signal => 3,
        }
    }

    /// The reason a byte stands for; unknown bytes read as `Requested`.
    pub fn from_u8(v: u8) -> (r: ShutdownReason)
        ensures
            r == reason_of_code(v),
    {
        match v {
            2 => ShutdownReason::ServiceFailed,
            3 => ShutdownReason::Signal,
            _ => ShutdownReason::Requested,
        }
    }
}

/// Decoding the byte of a reason gives the reason back, and distinct reasons
/// have distinct bytes, all in `1..=3`.
pub proof fn lemma_reason_code_roundtrip(r: ShutdownReason, s: ShutdownReason)
    ensures
        reason_of_code(reason_code(r)) == r,
        1 <= reason_code(r) <= 3,
        reason_code(r) == reason_code(s) ==> r == s,
{
}

/// A shutdown reason stored in an atomic byte.
pub struct ShutdownReasonAtomic(AtomicU8);

impl ShutdownReasonAtomic {
    /// An atomic holding the byte of `r`.
    pub fn new(r: ShutdownReason) -> (a: ShutdownReasonAtomic) {
        ShutdownReasonAtomic(AtomicU8::new(r.as_u8()))
    }

    /// The reason whose byte the atomic holds now (unknown bytes read as
    /// `Requested`).
    pub fn load(&self) -> (r: ShutdownReason) {
        let v = self.0.load(Ordering::Relaxed);
        ShutdownReason::from_u8(v)
    }

    /// Stores the byte of `r`.
    pub fn store(&self, r: ShutdownReason) {
        let v = r.as_u8();
        self.0.store(v, Ordering::Relaxed);
    }
}

// ---------------------------------------------------------------------------
// Runtime state and handles.
// ---------------------------------------------------------------------------

/// The state that the runtime and every handle share.
pub struct RuntimeInner {
    pub cancel: CancellationToken,
    pub notify: Notify,
    pub shutting_down: AtomicBool,
    pub reason: ShutdownReasonAtomic,
    pub shutdown_timeout: Duration,
}

impl RuntimeInner {
    /// Fresh state; the shutdown timeout is the given one, or the default.
    pub fn new(shutdown_timeout: Option<Duration>) -> (r: RuntimeInner)
        ensures
            r.shutdown_timeout == match shutdown_timeout {
                Some(d) => d,
                None => crate::util::default_timeout(),
            },
    {
        let timeout = match shutdown_timeout {
            Some(d) => d,
            None => default_shutdown_timeout(),
        };
        RuntimeInner {
            cancel: new_cancellation_token(),
            notify: new_notify(),
            shutting_down: AtomicBool::new(false),
            reason: ShutdownReasonAtomic::new(ShutdownReason::Requested),
            shutdown_timeout: timeout,
        }
    }

    /// Marks the runtime as shutting down for `reason`.
    pub fn set_shutdown_reason(&self, reason: ShutdownReason) {
        self.shutting_down.store(true, Ordering::Relaxed);
        self.reason.store(reason);
    }
}

/// A cheap handle to the runtime's shared state.
pub struct RuntimeHandle {
    pub(crate) inner: Arc<RuntimeInner>,
}

impl Clone for RuntimeHandle {
    fn clone(&self) -> (h: RuntimeHandle)
        ensures
            h.state() == self.state(),
    {
        RuntimeHandle { inner: share(&self.inner) }
    }
}

impl RuntimeHandle {
    /// The shared state this handle points to.
    pub closed spec fn state(self) -> RuntimeInner {
        *self.inner
    }

    /// The notifier that wakes the tasks waiting for shutdown.
    pub fn shutdown_notify(&self) -> (n: &Notify)
        ensures
            *n == self.state().notify,
    {
        &self.inner.notify
    }

    /// Whether shutdown has been requested.
    pub fn is_shutting_down(&self) -> (b: bool) {
        self.inner.shutting_down.load(Ordering::Relaxed)
    }

    /// Requests shutdown of the whole runtime: records the reason, cancels the
    /// root token and wakes everyone waiting for shutdown.
    pub fn request_shutdown(&self, reason: ShutdownReason) {
        self.inner.set_shutdown_reason(reason);
        cancel_token(&self.inner.cancel);
        wake_waiters(&self.inner.notify);
    }

    /// The recorded shutdown reason.
    pub fn shutdown_reason(&self) -> (r: ShutdownReason) {
        self.inner.reason.load()
    }

    /// The runtime's root cancellation token.
    pub fn cancellation_token(&self) -> (t: CancellationToken)
        ensures
            t == self.state().cancel,
    {
        clone_token(&self.inner.cancel)
    }
}

/// Errors of running the runtime. `E` is the error type of failed services.
#[derive(Debug)]
pub enum RuntimeError<E> {
    /// The dependency graph is invalid.
    Dag(DagError),
    /// A service failed.
    ServiceFailed(DynServiceError<E>),
    /// The services did not stop within the shutdown timeout.
    ShutdownTimeout(Duration),
}

impl<E> From<DagError> for RuntimeError<E> {
    fn from(e: DagError) -> (r: RuntimeError<E>) {
        RuntimeError::Dag(e)
    }
}

impl<E> vstd::std_specs::convert::FromSpecImpl<DagError> for RuntimeError<E> {
    open spec fn obeys_from_spec() -> bool {
        true
    }

    open spec fn from_spec(e: DagError) -> RuntimeError<E> {
        RuntimeError::Dag(e)
    }
}

impl<E> From<DynServiceError<E>> for RuntimeError<E> {
    fn from(e: DynServiceError<E>) -> (r: RuntimeError<E>) {
        RuntimeError::ServiceFailed(e)
    }
}

impl<E> vstd::std_specs::convert::FromSpecImpl<DynServiceError<E>> for RuntimeError<E> {
    open spec fn obeys_from_spec() -> bool {
        true
    }

    open spec fn from_spec(e: DynServiceError<E>) -> RuntimeError<E> {
        RuntimeError::ServiceFailed(e)
    }
}

/// The debug text of a runtime of `n` services, as `{:?}` writes it.
pub open spec fn runtime_text(n: nat) -> Seq<char> {
    "Runtime { specs_len: "@ + decimal_digits(n) + " }"@
}

/// A runtime ready to run: its shared state and the registered services, in
/// registration order.
pub struct Runtime<F> {
    pub(crate) inner: Arc<RuntimeInner>,
    pub(crate) specs: Vec<ServiceSpec<F>>,
}

impl<F> Runtime<F> {
    /// Registered names never repeat.
    #[verifier::type_invariant]
    spec fn well_formed(self) -> bool {
        names_distinct(self.specs@)
    }

    /// The shared state of the runtime.
    pub closed spec fn state(self) -> RuntimeInner {
        *self.inner
    }

    /// The registered services, in registration order.
    pub closed spec fn services(self) -> Seq<ServiceSpec<F>> {
        self.specs@
    }

    /// A runtime of `specs` sharing `inner`; the names must not repeat.
    pub(crate) fn from_parts(inner: Arc<RuntimeInner>, specs: Vec<ServiceSpec<F>>) -> (rt: Runtime<F>)
        requires
            names_distinct(specs@),
        ensures
            rt.services() == specs@,
            rt.state() == *inner,
    {
        Runtime { inner, specs }
    }

    /// The registered services, in registration order; their names never
    /// repeat.
    pub fn specs(&self) -> (r: &Vec<ServiceSpec<F>>)
        ensures
            r@ == self.services(),
            names_distinct(self.services()),
    {
        proof {
            use_type_invariant(self);
        }
        &self.specs
    }

    /// How long the runtime waits for services to stop after cancellation.
    pub fn shutdown_timeout(&self) -> (d: Duration)
        ensures
            d == self.state().shutdown_timeout,
    {
        self.inner.shutdown_timeout
    }

    /// The debug text of this runtime: `Runtime { specs_len: 2 }`.
    pub fn debug_string(&self) -> (s: String)
        ensures
            s@ == runtime_text(self.services().len()),
    {
        let mut s = String::new();
        append_text(&mut s, "Runtime { specs_len: ");
        let digits = decimal_text(self.specs.len());
        append_text(&mut s, digits.as_str());
        append_text(&mut s, " }");
        proof {
            assert(s@ =~= runtime_text(self.services().len()));
        }
        s
    }

    /// A handle to the runtime's shared state.
    pub fn handle(&self) -> (h: RuntimeHandle)
        ensures
            h.state() == self.state(),
    {
        RuntimeHandle { inner: share(&self.inner) }
    }

    /// The runtime's root cancellation token.
    pub fn cancellation_token(&self) -> (t: CancellationToken)
        ensures
            t == self.state().cancel,
    {
        clone_token(&self.inner.cancel)
    }
}

} // verus!
