//! The fixed-capacity vectors of the `heapless` crate that a topology is made of.
//!
//! The vectors stay opaque: their contents are named by [`probes_held`] and
//! [`uarts_held`], and the functions here say what each `heapless` call does to
//! those contents.

use vstd::prelude::*;

use crate::config::{ProbeConfig, UartConfig, MAX_PROBES, MAX_UARTS};

verus! {

/// `heapless::Vec`: at most `N` items, stored inline.
#[verifier::external_type_specification]
#[verifier::external_body]
#[verifier::reject_recursive_types(T)]
pub struct ExHeaplessVec<T, const N: usize>(heapless::Vec<T, N>);

/// The probes that a fixed-capacity vector holds, in order.
pub uninterp spec fn probes_held(v: heapless::Vec<ProbeConfig, MAX_PROBES>) -> Seq<ProbeConfig>;

/// The UART bridges that a fixed-capacity vector holds, in order.
pub uninterp spec fn uarts_held(v: heapless::Vec<UartConfig, MAX_UARTS>) -> Seq<UartConfig>;

/// `heapless::Vec::new`: a vector without items.
#[verifier::external_body]
pub(crate) fn no_probes() -> (v: heapless::Vec<ProbeConfig, MAX_PROBES>)
    ensures
        probes_held(v) == Seq::<ProbeConfig>::empty(),
{
    heapless::Vec::new()
}

/// `heapless::Vec::push`: appends the item while there is room, and otherwise
/// leaves the vector alone and hands the item back.
#[verifier::external_body]
pub(crate) fn push_probe(
    v: &mut heapless::Vec<ProbeConfig, MAX_PROBES>,
    probe: ProbeConfig,
) -> (r: Result<(), ProbeConfig>)
    ensures
        r is Ok == (probes_held(*old(v)).len() < MAX_PROBES),
        r is Ok ==> probes_held(*final(v)) == probes_held(*old(v)).push(probe),
        r matches Err(back) ==> back == probe && probes_held(*final(v)) == probes_held(*old(v)),
{
    v.push(probe)
}

/// `heapless::Vec::as_slice`: the items in order, never more than the capacity.
#[verifier::external_body]
pub(crate) fn probe_slice(v: &heapless::Vec<ProbeConfig, MAX_PROBES>) -> (r: &[ProbeConfig])
    ensures
        r@ == probes_held(*v),
        r@.len() <= MAX_PROBES,
{
    v.as_slice()
}

/// `heapless::Vec::new`: a vector without items.
#[verifier::external_body]
pub(crate) fn no_uarts() -> (v: heapless::Vec<UartConfig, MAX_UARTS>)
    ensures
        uarts_held(v) == Seq::<UartConfig>::empty(),
{
    heapless::Vec::new()
}

/// `heapless::Vec::push`: appends the item while there is room, and otherwise
/// leaves the vector alone and hands the item back.
#[verifier::external_body]
pub(crate) fn push_uart(
    v: &mut heapless::Vec<UartConfig, MAX_UARTS>,
    uart: UartConfig,
) -> (r: Result<(), UartConfig>)
    ensures
        r is Ok == (uarts_held(*old(v)).len() < MAX_UARTS),
        r is Ok ==> uarts_held(*final(v)) == uarts_held(*old(v)).push(uart),
        r matches Err(back) ==> back == uart && uarts_held(*final(v)) == uarts_held(*old(v)),
{
    v.push(uart)
}

/// `heapless::Vec::as_slice`: the items in order, never more than the capacity.
#[verifier::external_body]
pub(crate) fn uart_slice(v: &heapless::Vec<UartConfig, MAX_UARTS>) -> (r: &[UartConfig])
    ensures
        r@ == uarts_held(*v),
        r@.len() <= MAX_UARTS,
{
    v.as_slice()
}

} // verus!
