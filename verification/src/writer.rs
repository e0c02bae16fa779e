use vstd::prelude::*;

verus! {

/// When a log writer forces what it wrote to disk.
#[derive(Debug, Clone, Copy, PartialEq, Eq, Structural)]
pub enum FsyncPolicy {
    /// After every record.
    PerRecord,
    /// After every `n`-th record.
    Every(usize),
    /// Never.
    Off,
}

/// Size at which a segment is closed and the next one begun.
pub const SEGMENT_SIZE: u64 = 64 * 1024 * 1024;

/// The index of the segment a writer opens on a log whose highest segment is `last`:
/// the next one, or the first when there is none; none when `last` is the largest index.
pub fn next_segment_index(last: Option<u64>) -> (r: Option<u64>)
    ensures
        r == match last {
            None => Some(1u64),
            Some(i) => if i < u64::MAX {
                Some((i + 1) as u64)
            } else {
                None
            },
        },
{
    match last {
        None => Some(1),
        Some(i) => i.checked_add(1),
    }
}

/// Where a writer stands: the segment it writes, the bytes that segment holds, and the
/// records written since it was opened.
#[derive(Debug, Clone, Copy, PartialEq, Eq, Structural)]
pub struct WriterState {
    pub seg_idx: u64,
    pub seg_bytes: u64,
    pub write_count: usize,
}

/// What a writer does once a record is written: force the file to disk, and close the
/// segment to begin the next.
#[derive(Debug, Clone, Copy, PartialEq, Eq, Structural)]
pub struct AppendActions {
    pub sync: bool,
    pub roll: bool,
}

/// The policy asks for a sync after the `count`-th record.
pub open spec fn sync_due(policy: FsyncPolicy, count: int) -> bool {
    match policy {
        FsyncPolicy::PerRecord => true,
        FsyncPolicy::Every(n) => count % (n as int) == 0,
        FsyncPolicy::Off => false,
    }
}

impl WriterState {
    /// Account for a record of `len` bytes just written: the segment grows by `len` and
    /// one more record is counted; a sync is due as the policy says; a segment that
    /// reaches the segment size is closed, and the writer moves to the next, empty one.
    pub fn on_append(&mut self, policy: FsyncPolicy, len: u64) -> (a: AppendActions)
        requires
            !(policy matches FsyncPolicy::Every(n) && n == 0),
            old(self).seg_bytes + len <= u64::MAX,
            old(self).write_count < usize::MAX,
            old(self).seg_bytes + len >= SEGMENT_SIZE ==> old(self).seg_idx < u64::MAX,
        ensures
            final(self).write_count == old(self).write_count + 1,
            a.sync == sync_due(policy, final(self).write_count as int),
            a.roll == (old(self).seg_bytes + len >= SEGMENT_SIZE),
            a.roll ==> final(self).seg_idx == old(self).seg_idx + 1 && final(self).seg_bytes == 0,
            !a.roll ==> final(self).seg_idx == old(self).seg_idx && final(self).seg_bytes
                == old(self).seg_bytes + len,
    {
        self.seg_bytes = self.seg_bytes + len;
        self.write_count = self.write_count + 1;
        let sync = match policy {
            FsyncPolicy::PerRecord => true,
            FsyncPolicy::Every(n) => self.write_count % n == 0,
            FsyncPolicy::Off => false,
        };
        let roll = self.seg_bytes >= SEGMENT_SIZE;
        if roll {
            self.seg_idx = self.seg_idx + 1;
            self.seg_bytes = 0;
        }
        AppendActions { sync, roll }
    }
}

/// Under `Every(n)` a sync falls due after a record exactly when the count of records
/// written is a whole multiple of `n`: after the `n`-th, the `2n`-th and so on, and only
/// then. So the policy repeats itself every `n` records.
pub proof fn law_every_n_syncs_on_multiples(n: usize, c: int)
    requires
        n > 0,
    ensures
        sync_due(FsyncPolicy::Every(n), c) <==> exists|k: int| c == #[trigger] (k * n),
        sync_due(FsyncPolicy::Every(n), c + n) == sync_due(FsyncPolicy::Every(n), c),
        forall|k: int| k >= 1 ==> #[trigger] sync_due(FsyncPolicy::Every(n), k * n),
{
    let m = n as int;
    vstd::arithmetic::div_mod::lemma_fundamental_div_mod(c, m);
    if c % m == 0 {
        let k = c / m;
        assert(c == k * m) by (nonlinear_arith)
            requires
                c == m * (c / m) + c % m,
                c % m == 0,
                k == c / m,
        ;
    }
    if exists|k: int| c == #[trigger] (k * n) {
        let k = choose|k: int| c == #[trigger] (k * n);
        vstd::arithmetic::div_mod::lemma_mod_multiples_basic(k, m);
    }
    vstd::arithmetic::div_mod::lemma_mod_add_multiples_vanish(c, m);
    assert forall|k: int| k >= 1 implies #[trigger] sync_due(FsyncPolicy::Every(n), k * n) by {
        vstd::arithmetic::div_mod::lemma_mod_multiples_basic(k, m);
    }
}

} // verus!

