//! Bookkeeping behind client-side prediction, reconciliation and
//! interpolation: the history of unacknowledged inputs and the buffer of
//! timestamped server snapshots.

use crate::clock::{is_wall_millis, unix_time_millis};
use crate::server::client_manager::is_unprocessed;
use crate::shared::InputState;
use vstd::prelude::*;

verus! {

broadcast use vstd::seq_lib::group_seq_properties;

/// How the client treats an authoritative state from the server.
#[derive(Debug, Clone, Copy, PartialEq, Eq, Structural)]
pub struct ServerStateConfig {
    pub client_id: Option<u32>,
    pub reconciliation_enabled: bool,
    pub interpolation_enabled: bool,
}

/// The most inputs kept for replay before the oldest are dropped.
pub const MAX_INPUT_HISTORY: usize = 1000;

/// How many of the oldest inputs are dropped when the history overflows.
pub const INPUT_HISTORY_TRIM: usize = 100;

/// How long server snapshots are kept for interpolation, in milliseconds.
pub const SNAPSHOT_RETENTION_MS: u64 = 1000;

/// How far behind the wall clock remote players are rendered, in
/// milliseconds.
pub const INTERPOLATION_DELAY_MS: u64 = 150;

/// `a - b`, or 0 when `b` exceeds `a`.
pub open spec fn saturating_sub(a: u64, b: u64) -> u64 {
    if a >= b {
        (a - b) as u64
    } else {
        0
    }
}

/// The history after recording `input`: appended, and if that makes it
/// longer than `MAX_INPUT_HISTORY`, without its oldest `INPUT_HISTORY_TRIM`
/// entries.
pub open spec fn history_after_record(history: Seq<InputState>, input: InputState) -> Seq<
    InputState,
> {
    let t = history.push(input);
    if t.len() > MAX_INPUT_HISTORY {
        t.skip(INPUT_HISTORY_TRIM as int)
    } else {
        t
    }
}

/// Records a predicted input for later replay, dropping the oldest entries
/// when the history grows past its bound.
pub fn record_input(history: &mut Vec<InputState>, input: InputState)
    ensures
        final(history)@ == history_after_record(old(history)@, input),
        old(history)@.len() <= MAX_INPUT_HISTORY ==> final(history)@.len() <= MAX_INPUT_HISTORY,
{
    history.push(input);
    if history.len() > MAX_INPUT_HISTORY {
        let n = history.len();
        let mut kept: Vec<InputState> = Vec::new();
        let mut i: usize = INPUT_HISTORY_TRIM;
        while i < n
            invariant
                n == history@.len(),
                INPUT_HISTORY_TRIM <= i <= n,
                kept@ == history@.subrange(INPUT_HISTORY_TRIM as int, i as int),
            decreases n - i,
        {
            kept.push(history[i]);
            i = i + 1;
        }
        *history = kept;
    }
}

/// Forgets the inputs that the server has applied: those with sequence at
/// most `last_processed`.
pub fn discard_acknowledged(history: &mut Vec<InputState>, last_processed: u32)
    ensures
        final(history)@ == old(history)@.filter(is_unprocessed(last_processed)),
        forall|i: int|
            0 <= i < final(history)@.len() ==> #[trigger] final(history)@[i].sequence
                > last_processed,
{
    let ghost orig = history@;
    let n = history.len();
    let mut kept: Vec<InputState> = Vec::new();
    let mut i: usize = 0;
    while i < n
        invariant
            n == orig.len(),
            history@ == orig,
            0 <= i <= n,
            kept@ == orig.take(i as int).filter(is_unprocessed(last_processed)),
        decreases n - i,
    {
        let x = history[i];
        proof {
            assert(orig.take(i + 1) == orig.take(i as int).push(x));
            orig.take(i as int).lemma_filter_push(x, is_unprocessed(last_processed));
        }
        if x.sequence > last_processed {
            kept.push(x);
        }
        i = i + 1;
    }
    assert(orig.take(n as int) == orig);
    assert forall|i: int| 0 <= i < kept@.len() implies #[trigger] kept@[i].sequence
        > last_processed by {
        orig.lemma_filter_pred(is_unprocessed(last_processed), i);
    }
    *history = kept;
}

/// The predicate "stamped after `cutoff`" on snapshots.
pub open spec fn stamped_after<T>(cutoff: u64) -> spec_fn((u64, T)) -> bool {
    |e: (u64, T)| e.0 > cutoff
}

/// Buffers a snapshot stamped `timestamp` and drops every snapshot not
/// stamped within the retention window before it.
pub fn push_snapshot<T>(buffer: &mut Vec<(u64, T)>, timestamp: u64, snapshot: T)
    ensures
        final(buffer)@ == old(buffer)@.push((timestamp, snapshot)).filter(
            stamped_after::<T>(saturating_sub(timestamp, SNAPSHOT_RETENTION_MS)),
        ),
{
    let cutoff = if timestamp >= SNAPSHOT_RETENTION_MS {
        timestamp - SNAPSHOT_RETENTION_MS
    } else {
        0
    };
    let ghost p = stamped_after::<T>(cutoff);
    buffer.push((timestamp, snapshot));
    let ghost orig = buffer@;
    let total = buffer.len();
    assert(orig.len() == total);
    let mut kept: Vec<(u64, T)> = Vec::new();
    let mut k: usize = 0;
    while buffer.len() > 0
        invariant
            p == stamped_after::<T>(cutoff),
            orig.len() <= usize::MAX,
            k + buffer@.len() == orig.len(),
            buffer@ == orig.skip(k as int),
            kept@ == orig.take(k as int).filter(p),
        decreases buffer@.len(),
    {
        let e = buffer.remove(0);
        proof {
            assert(e == orig[k as int]);
            assert(orig.take(k + 1) == orig.take(k as int).push(e));
            orig.take(k as int).lemma_filter_push(e, p);
            assert(buffer@ == orig.skip(k + 1));
        }
        if e.0 > cutoff {
            kept.push(e);
        }
        k = k + 1;
    }
    assert(orig.take(orig.len() as int) == orig);
    *buffer = kept;
}

/// The pair of buffered snapshots to interpolate between at `render_time`:
/// `after` is the first snapshot stamped later than `render_time`, and
/// `before` the one just before it (or the last one when none is later).
pub fn find_interpolation_pair<T>(buffer: &Vec<(u64, T)>, render_time: u64) -> (r: (
    Option<usize>,
    Option<usize>,
))
    ensures
        match r.1 {
            None => {
                &&& forall|i: int| 0 <= i < buffer@.len() ==> buffer@[i].0 <= render_time
                &&& r.0 == if buffer@.len() > 0 {
                    Some((buffer@.len() - 1) as usize)
                } else {
                    None::<usize>
                }
            },
            Some(k) => {
                &&& k < buffer@.len()
                &&& buffer@[k as int].0 > render_time
                &&& forall|i: int| 0 <= i < k ==> buffer@[i].0 <= render_time
                &&& r.0 == if k > 0 {
                    Some((k - 1) as usize)
                } else {
                    None::<usize>
                }
            },
        },
{
    let n = buffer.len();
    let mut before: Option<usize> = None;
    let mut i: usize = 0;
    while i < n
        invariant
            n == buffer@.len(),
            0 <= i <= n,
            forall|j: int| 0 <= j < i ==> buffer@[j].0 <= render_time,
            before == if i > 0 {
                Some((i - 1) as usize)
            } else {
                None::<usize>
            },
        decreases n - i,
    {
        if buffer[i].0 <= render_time {
            before = Some(i);
        } else {
            return (before, Some(i));
        }
        i = i + 1;
    }
    (before, None)
}

/// The time at which remote players are rendered when the wall clock reads
/// `now_ms` milliseconds: `INTERPOLATION_DELAY_MS` earlier, saturating at 0,
/// with readings past `u64::MAX` taken as `u64::MAX`.
pub fn render_time_at(now_ms: u128) -> (r: u64)
    ensures
        r == saturating_sub(
            if now_ms > u64::MAX as u128 {
                u64::MAX
            } else {
                now_ms as u64
            },
            INTERPOLATION_DELAY_MS,
        ),
{
    let now_safe: u64 = if now_ms > u64::MAX as u128 {
        u64::MAX
    } else {
        now_ms as u64
    };
    if now_safe >= INTERPOLATION_DELAY_MS {
        now_safe - INTERPOLATION_DELAY_MS
    } else {
        0
    }
}

/// The time at which remote players are rendered now: that of
/// `render_time_at` for the wall-clock reading taken in the call; whatever
/// the clock reads, it lies at least `INTERPOLATION_DELAY_MS` below
/// `u64::MAX`.
pub fn interpolation_render_time() -> (r: u64)
    ensures
        r <= u64::MAX - INTERPOLATION_DELAY_MS,
        exists|now_ms: u128|
            #[trigger] is_wall_millis(now_ms) && r == saturating_sub(
                if now_ms > u64::MAX as u128 {
                    u64::MAX
                } else {
                    now_ms as u64
                },
                INTERPOLATION_DELAY_MS,
            ),
{
    let now_ms = unix_time_millis();
    render_time_at(now_ms)
}

/// The index of the first entry of `ids` equal to `id` at or after `from`,
/// or -1.
pub open spec fn first_index_from(ids: Seq<u32>, id: u32, from: int) -> int
    decreases ids.len() - from,
{
    if from < 0 || from >= ids.len() {
        -1
    } else if ids[from] == id {
        from
    } else {
        first_index_from(ids, id, from + 1)
    }
}

/// The index of the first entry of `ids` equal to `id`, if any.
pub fn find_id(ids: &Vec<u32>, id: u32) -> (r: Option<usize>)
    ensures
        r == if first_index_from(ids@, id, 0) >= 0 {
            Some(first_index_from(ids@, id, 0) as usize)
        } else {
            None::<usize>
        },
        r matches Some(j) ==> j < ids@.len() && ids@[j as int] == id && forall|k: int|
            0 <= k < j ==> ids@[k] != id,
        r is None ==> forall|k: int| 0 <= k < ids@.len() ==> ids@[k] != id,
{
    let n = ids.len();
    let mut j: usize = 0;
    while j < n
        invariant
            n == ids@.len(),
            0 <= j <= n,
            first_index_from(ids@, id, 0) == first_index_from(ids@, id, j as int),
            forall|k: int| 0 <= k < j ==> ids@[k] != id,
        decreases n - j,
    {
        if ids[j] == id {
            return Some(j);
        }
        j = j + 1;
    }
    None
}

/// Where a rendered player comes from when remote players are interpolated
/// between two snapshots.
#[derive(Debug, Clone, Copy, PartialEq, Eq, Structural)]
pub enum PlayerSource {
    /// The local player listed at `index` of the earlier snapshot: drawn from
    /// the prediction.
    Predicted { index: usize },
    /// A remote player listed at `from` of the earlier snapshot and at `to`
    /// of the later one: drawn between the two.
    Blend { from: usize, to: usize },
}

/// The sources of the players drawn for the first `k` players of the
/// earlier snapshot, whose ids are `ids1`, given the ids `ids2` of the later
/// snapshot and the local player's id: the local player comes from the
/// prediction; a remote player is blended with its first entry in the later
/// snapshot; a remote player missing from the later snapshot is not drawn.
pub open spec fn blend_plan(ids1: Seq<u32>, ids2: Seq<u32>, local: Option<u32>, k: nat) -> Seq<
    PlayerSource,
>
    decreases k,
{
    if k == 0 {
        Seq::empty()
    } else {
        let i = k - 1;
        let rest = blend_plan(ids1, ids2, local, i as nat);
        if local == Some(ids1[i]) {
            rest.push(PlayerSource::Predicted { index: i as usize })
        } else if first_index_from(ids2, ids1[i], 0) >= 0 {
            rest.push(
                PlayerSource::Blend { from: i as usize, to: first_index_from(ids2, ids1[i], 0) as usize },
            )
        } else {
            rest
        }
    }
}

/// The sources of the players drawn between two snapshots whose player ids
/// are `ids1` (earlier) and `ids2` (later), in the order of the earlier
/// snapshot.
pub fn interpolation_sources(ids1: &Vec<u32>, ids2: &Vec<u32>, local: Option<u32>) -> (r: Vec<
    PlayerSource,
>)
    ensures
        r@ == blend_plan(ids1@, ids2@, local, ids1@.len()),
{
    let n = ids1.len();
    let mut out: Vec<PlayerSource> = Vec::new();
    let mut i: usize = 0;
    while i < n
        invariant
            n == ids1@.len(),
            0 <= i <= n,
            out@ == blend_plan(ids1@, ids2@, local, i as nat),
        decreases n - i,
    {
        let id = ids1[i];
        if local == Some(id) {
            out.push(PlayerSource::Predicted { index: i });
        } else {
            match find_id(ids2, id) {
                Some(j) => out.push(PlayerSource::Blend { from: i, to: j }),
                None => {},
            }
        }
        i = i + 1;
    }
    out
}

} // verus!
