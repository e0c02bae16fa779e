use vstd::prelude::*;

verus! {

/// Orders each of `tasks` senders sends so that together they send `count`, rounding up;
/// without limit when `count` is 0.
pub fn orders_per_task(count: u64, tasks: u64) -> (n: u64)
    requires
        tasks > 0,
        count + tasks <= u64::MAX,
    ensures
        count == 0 ==> n == u64::MAX,
        count > 0 ==> n == (count + tasks - 1) / tasks as int,
        count > 0 ==> n * tasks >= count && (n - 1) * tasks < count,
{
    if count == 0 {
        u64::MAX
    } else {
        let n = (count + tasks - 1) / tasks;
        assert(n * tasks >= count && (n - 1) * tasks < count) by (nonlinear_arith)
            requires
                n == (count + tasks - 1) / tasks as int,
                tasks > 0,
                count > 0,
        ;
        n
    }
}

/// Nanoseconds between two orders of one sender at `rate` orders a second; no pause when
/// the rate is 0 (unlimited).
pub fn send_interval_nanos(rate: u64) -> (r: Option<u64>)
    ensures
        rate == 0 ==> r is None,
        rate > 0 ==> r == Some((1_000_000_000u64 / rate) as u64),
{
    if rate > 0 {
        Some(1_000_000_000 / rate)
    } else {
        None
    }
}

} // verus!
