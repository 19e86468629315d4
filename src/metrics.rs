//! Registration of the service's request metrics.
use vstd::prelude::*;

verus! {

#[verifier::external_type_specification]
#[verifier::external_body]
pub struct ExRegistry(prometheus::Registry);

/// Relies on `prometheus::Registry::register`: hands the registry a clone of
/// `collector` and reports whether it was accepted (the registry refuses a
/// collector whose descriptors it already holds).
#[verifier::external_body]
fn register_collector<C: prometheus::core::Collector + Clone + 'static>(
    registry: &prometheus::Registry,
    collector: &C,
) -> (accepted: bool) {
    registry.register(Box::new(collector.clone())).is_ok()
}

/// Registers the request counter and the request latency histogram with
/// `registry`. A metric that the registry already holds stays as it is.
pub fn register_metrics<A, B>(
    registry: &prometheus::Registry,
    requests_total: &A,
    request_duration: &B,
) where A: prometheus::core::Collector + Clone + 'static, B: prometheus::core::Collector + Clone
    + 'static {
    let _ = register_collector(registry, requests_total);
    let _ = register_collector(registry, request_duration);
}

} // verus!
