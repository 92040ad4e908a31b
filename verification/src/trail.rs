//! Trail generation: walk from a starting digest until the first
//! distinguished point, with a step cap against degenerate densities.

use vstd::prelude::*;

use crate::config::{SearchConfig, SearchError};
use crate::digest::clone_bytes;
use crate::walk::{distinguished_spec, is_distinguished, pollard_next, walk_spec};

verus! {

/// The digest reached after `n` applications of the walk function.
pub open spec fn walk_n(cfg: SearchConfig, d: Seq<u8>, n: nat) -> Seq<u8>
    decreases n,
{
    if n == 0 {
        d
    } else {
        walk_spec(cfg, walk_n(cfg, d, (n - 1) as nat))
    }
}

/// The number of walk steps from `d` to the first distinguished point, if
/// one is reached within `fuel` steps.
pub open spec fn first_dp(cfg: SearchConfig, d: Seq<u8>, fuel: nat) -> Option<nat>
    decreases fuel,
{
    if distinguished_spec(cfg, d) {
        Some(0)
    } else if fuel == 0 {
        None
    } else {
        match first_dp(cfg, walk_spec(cfg, d), (fuel - 1) as nat) {
            Some(k) => Some((k + 1) as nat),
            None => None,
        }
    }
}

/// A trail: a starting digest together with the distinguished endpoint its
/// walk first reaches. The start need not be distinguished.
pub struct Trail {
    pub start: Vec<u8>,
    pub end: Vec<u8>,
}

/// The endpoint is reached from the start by finitely many walk steps, is
/// distinguished, and is the first point along the path that is.
pub open spec fn trail_links(cfg: SearchConfig, start: Seq<u8>, end: Seq<u8>) -> bool {
    exists|n: nat|
        {
            &&& end == #[trigger] walk_n(cfg, start, n)
            &&& distinguished_spec(cfg, end)
            &&& forall|m: nat| m < n ==> !distinguished_spec(cfg, #[trigger] walk_n(cfg, start, m))
        }
}

pub proof fn lemma_walk_n_shift(cfg: SearchConfig, d: Seq<u8>, m: nat)
    ensures
        walk_n(cfg, walk_spec(cfg, d), m) == walk_n(cfg, d, m + 1),
    decreases m,
{
    assert(walk_n(cfg, d, m + 1) == walk_spec(cfg, walk_n(cfg, d, m)));
    if m > 0 {
        lemma_walk_n_shift(cfg, d, (m - 1) as nat);
        assert(walk_n(cfg, walk_spec(cfg, d), m) == walk_spec(
            cfg,
            walk_n(cfg, walk_spec(cfg, d), (m - 1) as nat),
        ));
    }
}

/// Law: for any start, the step count that `first_dp` reports leads to a
/// distinguished point, and no earlier point along the walk is
/// distinguished; when it reports none, no point within the fuel is.
pub proof fn lemma_first_dp_props(cfg: SearchConfig, d: Seq<u8>, fuel: nat)
    ensures
        match first_dp(cfg, d, fuel) {
            Some(n) => n <= fuel && distinguished_spec(cfg, walk_n(cfg, d, n)) && forall|m: nat|
                m < n ==> !distinguished_spec(cfg, #[trigger] walk_n(cfg, d, m)),
            None => forall|m: nat|
                m <= fuel ==> !distinguished_spec(cfg, #[trigger] walk_n(cfg, d, m)),
        },
    decreases fuel,
{
    if distinguished_spec(cfg, d) {
    } else if fuel == 0 {
        assert forall|m: nat| m <= fuel implies !distinguished_spec(cfg, walk_n(cfg, d, m)) by {
            assert(walk_n(cfg, d, 0) == d);
        }
    } else {
        lemma_first_dp_props(cfg, walk_spec(cfg, d), (fuel - 1) as nat);
        match first_dp(cfg, walk_spec(cfg, d), (fuel - 1) as nat) {
            Some(k) => {
                lemma_walk_n_shift(cfg, d, k);
                assert forall|m: nat| m < k + 1 implies !distinguished_spec(
                    cfg,
                    walk_n(cfg, d, m),
                ) by {
                    if m > 0 {
                        lemma_walk_n_shift(cfg, d, (m - 1) as nat);
                        assert(walk_n(cfg, d, m) == walk_n(cfg, walk_spec(cfg, d), (m - 1) as nat));
                    }
                }
            },
            None => {
                assert forall|m: nat| m <= fuel implies !distinguished_spec(
                    cfg,
                    walk_n(cfg, d, m),
                ) by {
                    if m > 0 {
                        lemma_walk_n_shift(cfg, d, (m - 1) as nat);
                        assert(walk_n(cfg, d, m) == walk_n(cfg, walk_spec(cfg, d), (m - 1) as nat));
                    }
                }
            },
        }
    }
}

/// Walk from `start` until the first distinguished point, or fail with
/// `TrailTooLong` when none is reached within `max_steps` steps.
pub fn trail_from(cfg: &SearchConfig, start: Vec<u8>, max_steps: usize) -> (r: Result<
    Trail,
    SearchError,
>)
    requires
        cfg.wf(),
        start@.len() == cfg.width,
    ensures
        match r {
            Ok(t) => {
                &&& t.start@ == start@
                &&& t.end@.len() == cfg.width
                &&& distinguished_spec(*cfg, t.end@)
                &&& match first_dp(*cfg, start@, max_steps as nat) {
                    Some(n) => t.end@ == walk_n(*cfg, start@, n),
                    None => false,
                }
                &&& trail_links(*cfg, t.start@, t.end@)
            },
            Err(e) => e == SearchError::TrailTooLong && first_dp(*cfg, start@, max_steps as nat)
                == Option::<nat>::None,
        },
{
    let mut point = clone_bytes(&start);
    let mut steps: usize = 0;
    loop
        invariant
            cfg.wf(),
            start@.len() == cfg.width,
            point@.len() == cfg.width,
            steps <= max_steps,
            point@ == walk_n(*cfg, start@, steps as nat),
            forall|m: nat|
                m < steps ==> !distinguished_spec(*cfg, #[trigger] walk_n(*cfg, start@, m)),
            match first_dp(*cfg, point@, (max_steps - steps) as nat) {
                Some(k) => first_dp(*cfg, start@, max_steps as nat) == Some((k + steps) as nat),
                None => first_dp(*cfg, start@, max_steps as nat) == Option::<nat>::None,
            },
        decreases max_steps - steps,
    {
        if is_distinguished(cfg, &point) {
            proof {
                assert(first_dp(*cfg, point@, (max_steps - steps) as nat) == Some(0nat));
            }
            return Ok(Trail { start, end: point });
        }
        if steps == max_steps {
            proof {
                assert(first_dp(*cfg, point@, 0nat) == Option::<nat>::None);
            }
            return Err(SearchError::TrailTooLong);
        }
        let ghost old_point = point@;
        let ghost rem = (max_steps - steps) as nat;
        point = pollard_next(cfg, &point);
        steps = steps + 1;
        proof {
            assert(walk_n(*cfg, start@, steps as nat) == walk_spec(
                *cfg,
                walk_n(*cfg, start@, (steps - 1) as nat),
            ));
            assert(first_dp(*cfg, old_point, rem) == match first_dp(
                *cfg,
                walk_spec(*cfg, old_point),
                (rem - 1) as nat,
            ) {
                Some(k) => Some((k + 1) as nat),
                None => Option::<nat>::None,
            });
        }
    }
}

/// Relies on rand::random: a fresh pseudorandom 64-bit value; nothing is
/// assumed of its distribution.
#[verifier::external_body]
fn random_u64() -> u64 {
    rand::random::<u64>()
}

/// A random starting digest of the configured width, drawn from this
/// thread's pseudorandom source.
pub fn random_start(cfg: &SearchConfig) -> (r: Vec<u8>)
    requires
        cfg.wf(),
    ensures
        r@.len() == cfg.width,
{
    let x = random_u64();
    let mut v: Vec<u8> = Vec::new();
    let mut i: usize = 0;
    while i < cfg.width
        invariant
            cfg.wf(),
            i <= cfg.width,
            v@.len() == i,
        decreases cfg.width - i,
    {
        let shift: u64 = 8 * (i as u64);
        let b = ((x >> shift) & 0xff) as u8;
        v.push(b);
        i += 1;
    }
    v
}

/// Generate one trail from a fresh random start.
pub fn make_trail(cfg: &SearchConfig, max_steps: usize) -> (r: Result<Trail, SearchError>)
    requires
        cfg.wf(),
    ensures
        match r {
            Ok(t) => {
                &&& t.start@.len() == cfg.width
                &&& t.end@.len() == cfg.width
                &&& distinguished_spec(*cfg, t.end@)
                &&& trail_links(*cfg, t.start@, t.end@)
            },
            Err(e) => e == SearchError::TrailTooLong,
        },
{
    let start = random_start(cfg);
    trail_from(cfg, start, max_steps)
}

} // verus!
