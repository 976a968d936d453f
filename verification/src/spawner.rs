//! Decisions of the process spawner: when to start a child, and how long a
//! child lives.

use rand::{Rng, SeedableRng};
use vstd::prelude::*;

verus! {

/// The whole number that `rand`'s standard generator, seeded with `seed`
/// through `SeedableRng::seed_from_u64`, draws first from `low..high`.
pub uninterp spec fn seeded_sample(seed: u64, low: i32, high: i32) -> i32;

/// Calls `rand::rngs::StdRng::seed_from_u64(seed)` and `Rng::gen_range(low..high)`
/// on the generator.
///
/// Claims: the number lies in `low..high` (what `gen_range` documents; it
/// panics on an empty range, which `requires` rules out) and depends on the
/// seed and the bounds alone (the generator is deterministic once seeded).
/// Which number in the range comes out is left to the name `seeded_sample`.
#[verifier::external_body]
fn sample_with_seed(seed: u64, low: i32, high: i32) -> (r: i32)
    requires
        low < high,
    ensures
        r == seeded_sample(seed, low, high),
        low <= r < high,
{
    let mut rng = rand::rngs::StdRng::seed_from_u64(seed);
    rng.gen_range(low..high)
}

/// Calls `nix::unistd::getpid` and returns the raw process id. Nothing is
/// claimed of the value.
#[verifier::external_body]
fn current_pid() -> (pid: i32) {
    nix::unistd::getpid().as_raw()
}

/// The number in `min..=max` that a generator seeded with the process id
/// `pid` draws.
pub fn random_in_range_for_pid(pid: i32, min: i32, max: i32) -> (r: i32)
    requires
        min <= max < i32::MAX,
    ensures
        r == seeded_sample(pid as u64, min, (max + 1) as i32),
        min <= r <= max,
{
    sample_with_seed(pid as u64, min, max + 1)
}

/// A number in `min..=max` drawn by a generator seeded with this process's
/// id: the draw for some process id (which one, the system decides).
pub fn random_in_range(min: i32, max: i32) -> (r: i32)
    requires
        min <= max < i32::MAX,
    ensures
        min <= r <= max,
        exists|pid: i32| r == #[trigger] seeded_sample(pid as u64, min, (max + 1) as i32),
{
    let pid = current_pid();
    let r = random_in_range_for_pid(pid, min, max);
    assert(r == seeded_sample(pid as u64, min, (max + 1) as i32));
    r
}

/// What the spawner does next.
#[derive(PartialEq, Eq, Structural, Clone, Copy, Debug)]
pub enum SpawnAction {
    /// Set an alarm for the next child after `alarm_secs` seconds and start a
    /// child now.
    Spawn { alarm_secs: u32 },
    /// Sleep `secs` seconds.
    Sleep { secs: u32 },
}

/// The spawner's counters: whether the alarm asked for a new child (1), and
/// how many children were started.
#[derive(PartialEq, Eq, Structural, Clone, Copy, Debug)]
pub struct SpawnerState {
    pub spawn_flag: i32,
    pub child_count: i32,
}

/// One turn of the spawner's loop: when the alarm asked for a child, clear
/// the request, count the child and start it, with the next alarm after
/// `interval` seconds; otherwise sleep five seconds.
pub fn next_step(state: SpawnerState, interval: u8) -> (r: (SpawnerState, SpawnAction))
    requires
        state.spawn_flag == 1 ==> state.child_count < i32::MAX,
    ensures
        state.spawn_flag == 1 ==> r.0.spawn_flag == 0 && r.0.child_count == state.child_count + 1
            && r.1 == (SpawnAction::Spawn { alarm_secs: interval as u32 }),
        state.spawn_flag != 1 ==> r.0 == state && r.1 == (SpawnAction::Sleep { secs: 5 }),
{
    if state.spawn_flag == 1 {
        (
            SpawnerState { spawn_flag: 0, child_count: state.child_count + 1 },
            SpawnAction::Spawn { alarm_secs: interval as u32 },
        )
    } else {
        (state, SpawnAction::Sleep { secs: 5 })
    }
}

} // verus!
