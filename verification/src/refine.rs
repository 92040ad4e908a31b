//! Trail refinement: given two trail starts known to converge, replay both
//! walks to locate the exact pair of distinct predecessor digests whose walk
//! outputs collide.

use std::collections::HashMap;

use vstd::prelude::*;

use crate::config::{SearchConfig, SearchError};
use crate::digest::{clone_bytes, bytes_eq, digest_key, key_spec, lemma_key_fits, lemma_key_injective};
use crate::trail::{first_dp, walk_n};
use crate::walk::{
    distinguished_spec, hash_to_msg, is_distinguished, message_spec, pollard_next, walk_spec,
};

verus! {

broadcast use vstd::std_specs::hash::group_hash_axioms;

/// The walk-history table of the first trail's replay after `n` steps: each
/// digest visited (after at least one step) maps to its immediate
/// predecessor along the walk; a digest revisited keeps its latest
/// predecessor.
pub open spec fn replay_hist(cfg: SearchConfig, a0: Seq<u8>, n: nat) -> Map<Seq<u8>, Seq<u8>>
    decreases n,
{
    if n == 0 {
        Map::empty()
    } else {
        replay_hist(cfg, a0, (n - 1) as nat).insert(
            walk_n(cfg, a0, n),
            walk_n(cfg, a0, (n - 1) as nat),
        )
    }
}

/// Walk the second trail, with `y` the latest digest and `m` its walk
/// output, until `m` is recorded in `hist` with a predecessor other than
/// `y`: a recorded point with an equal predecessor is a mere overlap of the
/// two trails and the search continues past it.
pub open spec fn seek_divergence(
    hist: Map<Seq<u8>, Seq<u8>>,
    y: Seq<u8>,
    m: Seq<u8>,
    cfg: SearchConfig,
    fuel: nat,
) -> Option<(Seq<u8>, Seq<u8>)>
    decreases fuel,
{
    if hist.dom().contains(m) && hist[m] != y {
        Some((hist[m], y))
    } else if fuel == 0 {
        None
    } else {
        seek_divergence(hist, m, walk_spec(cfg, m), cfg, (fuel - 1) as nat)
    }
}

/// What refinement computes from the two trail starts: replay the first
/// trail to its distinguished point recording predecessors, then walk the
/// second until a recorded digest with a differing predecessor is found.
pub open spec fn refine_spec(cfg: SearchConfig, a0: Seq<u8>, b0: Seq<u8>, max_steps: nat) -> Result<
    (Seq<u8>, Seq<u8>),
    SearchError,
> {
    match first_dp(cfg, a0, max_steps) {
        None => Err(SearchError::TrailTooLong),
        Some(n) => match seek_divergence(
            replay_hist(cfg, a0, n),
            b0,
            walk_spec(cfg, b0),
            cfg,
            max_steps,
        ) {
            Some(pair) => Ok(pair),
            None => Err(SearchError::RefinementOverlapOnly),
        },
    }
}

/// Every recorded digest is the walk output of its recorded predecessor,
/// and every recorded predecessor lies on the first trail.
pub proof fn lemma_replay_hist_props(cfg: SearchConfig, a0: Seq<u8>, n: nat)
    ensures
        forall|p: Seq<u8>| #[trigger] replay_hist(cfg, a0, n).dom().contains(p) ==> {
            &&& walk_spec(cfg, replay_hist(cfg, a0, n)[p]) == p
            &&& exists|i: nat| i < n && replay_hist(cfg, a0, n)[p] == walk_n(cfg, a0, i)
        },
    decreases n,
{
    if n > 0 {
        lemma_replay_hist_props(cfg, a0, (n - 1) as nat);
        let prev = replay_hist(cfg, a0, (n - 1) as nat);
        let cur = replay_hist(cfg, a0, n);
        assert forall|p: Seq<u8>| #[trigger] cur.dom().contains(p) implies {
            &&& walk_spec(cfg, cur[p]) == p
            &&& exists|i: nat| i < n && cur[p] == walk_n(cfg, a0, i)
        } by {
            if p == walk_n(cfg, a0, n) {
                assert(cur[p] == walk_n(cfg, a0, (n - 1) as nat));
                assert(walk_n(cfg, a0, n) == walk_spec(cfg, walk_n(cfg, a0, (n - 1) as nat)));
                assert(((n - 1) as nat) < n && cur[p] == walk_n(cfg, a0, (n - 1) as nat));
            } else {
                assert(prev.dom().contains(p));
                assert(cur[p] == prev[p]);
                let i = choose|i: nat| i < (n - 1) as nat && prev[p] == walk_n(cfg, a0, i);
                assert(i < n && cur[p] == walk_n(cfg, a0, i));
            }
        }
    }
}

/// The executable history table stands for the abstract one: each slot
/// holds a recorded digest of the right width under its own key together
/// with its recorded predecessor, and every recorded digest has a slot.
pub open spec fn hist_matches(
    exec: Map<u64, (Vec<u8>, Vec<u8>)>,
    hist: Map<Seq<u8>, Seq<u8>>,
    width: nat,
) -> bool {
    &&& forall|k: u64| exec.dom().contains(k) ==> {
        let pr = #[trigger] exec[k];
        &&& key_spec(pr.0@) == k as nat
        &&& pr.0@.len() == width
        &&& pr.1@.len() == width
        &&& hist.dom().contains(pr.0@)
        &&& hist[pr.0@] == pr.1@
    }
    &&& forall|p: Seq<u8>| #[trigger] hist.dom().contains(p) ==> {
        &&& p.len() == width
        &&& exec.dom().contains(key_spec(p) as u64)
        &&& exec[key_spec(p) as u64].0@ == p
    }
}

/// Law: a shared digest whose recorded predecessor equals the current one is
/// a mere overlap of the two trails, and the search steps past it rather
/// than returning it.
pub proof fn lemma_overlap_is_skipped(
    hist: Map<Seq<u8>, Seq<u8>>,
    y: Seq<u8>,
    m: Seq<u8>,
    cfg: SearchConfig,
    fuel: nat,
)
    requires
        hist.dom().contains(m),
        hist[m] == y,
        fuel > 0,
    ensures
        seek_divergence(hist, y, m, cfg, fuel) == seek_divergence(
            hist,
            m,
            walk_spec(cfg, m),
            cfg,
            (fuel - 1) as nat,
        ),
{
}

/// Law: whatever pair the divergence search returns, its two digests
/// differ; a coincidental overlap is never reported as a collision.
pub proof fn lemma_divergence_distinct(
    hist: Map<Seq<u8>, Seq<u8>>,
    y: Seq<u8>,
    m: Seq<u8>,
    cfg: SearchConfig,
    fuel: nat,
)
    ensures
        match seek_divergence(hist, y, m, cfg, fuel) {
            Some(pair) => pair.0 != pair.1,
            None => true,
        },
    decreases fuel,
{
    if hist.dom().contains(m) && hist[m] != y {
    } else if fuel > 0 {
        lemma_divergence_distinct(hist, m, walk_spec(cfg, m), cfg, (fuel - 1) as nat);
    }
}

/// The exact collision located by refinement: two distinct digests whose
/// walk outputs agree, their decoded messages, and the shared walk output.
pub struct Collision {
    pub x: Vec<u8>,
    pub y: Vec<u8>,
    pub digest: Vec<u8>,
    pub msg_x: Vec<u8>,
    pub msg_y: Vec<u8>,
}

/// Replay both trails and locate the exact colliding pair: `x` on the first
/// trail and `y` on the second, distinct, with equal walk outputs. A shared
/// digest whose predecessors agree is an overlap, not a collision, and is
/// walked past. Each replay is bounded by `max_steps`.
pub fn refine(cfg: &SearchConfig, a0: &Vec<u8>, b0: &Vec<u8>, max_steps: usize) -> (r: Result<
    Collision,
    SearchError,
>)
    requires
        cfg.wf(),
        a0@.len() == cfg.width,
        b0@.len() == cfg.width,
    ensures
        match r {
            Ok(c) => {
                &&& refine_spec(*cfg, a0@, b0@, max_steps as nat) == Ok::<_, SearchError>(
                    (c.x@, c.y@),
                )
                &&& c.x@ != c.y@
                &&& walk_spec(*cfg, c.x@) == walk_spec(*cfg, c.y@)
                &&& c.digest@ == walk_spec(*cfg, c.x@)
                &&& c.msg_x@ == message_spec(c.x@)
                &&& c.msg_y@ == message_spec(c.y@)
                &&& c.x@.len() == cfg.width
                &&& c.y@.len() == cfg.width
                &&& exists|i: nat| c.x@ == walk_n(*cfg, a0@, i)
                &&& exists|j: nat| c.y@ == walk_n(*cfg, b0@, j)
            },
            Err(e) => refine_spec(*cfg, a0@, b0@, max_steps as nat) == Err::<(Seq<u8>, Seq<u8>), _>(
                e,
            ),
        },
{
    let mut table: HashMap<u64, (Vec<u8>, Vec<u8>)> = HashMap::new();
    let mut a = clone_bytes(a0);
    let mut steps: usize = 0;
    proof {
        assert(hist_matches(table@, replay_hist(*cfg, a0@, 0), cfg.width as nat));
    }
    loop
        invariant
            cfg.wf(),
            a0@.len() == cfg.width,
            b0@.len() == cfg.width,
            a@.len() == cfg.width,
            steps <= max_steps,
            a@ == walk_n(*cfg, a0@, steps as nat),
            hist_matches(table@, replay_hist(*cfg, a0@, steps as nat), cfg.width as nat),
            match first_dp(*cfg, a@, (max_steps - steps) as nat) {
                Some(k) => first_dp(*cfg, a0@, max_steps as nat) == Some((k + steps) as nat),
                None => first_dp(*cfg, a0@, max_steps as nat) == Option::<nat>::None,
            },
        ensures
            distinguished_spec(*cfg, a@),
            first_dp(*cfg, a0@, max_steps as nat) == Some(steps as nat),
            hist_matches(table@, replay_hist(*cfg, a0@, steps as nat), cfg.width as nat),
            cfg.wf() && a0@.len() == cfg.width && b0@.len() == cfg.width,
            steps <= max_steps,
        decreases max_steps - steps,
    {
        if is_distinguished(cfg, &a) {
            proof {
                assert(first_dp(*cfg, a@, (max_steps - steps) as nat) == Some(0nat));
            }
            break;
        }
        if steps == max_steps {
            proof {
                assert(first_dp(*cfg, a@, 0nat) == Option::<nat>::None);
            }
            return Err(SearchError::TrailTooLong);
        }
        let ghost old_a = a@;
        let ghost rem = (max_steps - steps) as nat;
        let ghost old_hist = replay_hist(*cfg, a0@, steps as nat);
        let prev = a;
        a = pollard_next(cfg, &prev);
        let k = digest_key(&a);
        proof {
            lemma_key_fits(a@);
        }
        let ghost old_tab = table@;
        table.insert(k, (clone_bytes(&a), prev));
        steps = steps + 1;
        proof {
            assert(walk_n(*cfg, a0@, steps as nat) == walk_spec(
                *cfg,
                walk_n(*cfg, a0@, (steps - 1) as nat),
            ));
            assert(first_dp(*cfg, old_a, rem) == match first_dp(
                *cfg,
                walk_spec(*cfg, old_a),
                (rem - 1) as nat,
            ) {
                Some(j) => Some((j + 1) as nat),
                None => Option::<nat>::None,
            });
            let hist = replay_hist(*cfg, a0@, steps as nat);
            assert(hist == old_hist.insert(a@, old_a));
            assert forall|k2: u64| table@.dom().contains(k2) implies {
                let pr = #[trigger] table@[k2];
                &&& key_spec(pr.0@) == k2 as nat
                &&& pr.0@.len() == cfg.width
                &&& hist.dom().contains(pr.0@)
                &&& hist[pr.0@] == pr.1@
            } by {
                let pr = table@[k2];
                if k2 == k {
                } else {
                    assert(old_tab.dom().contains(k2) && table@[k2] == old_tab[k2]);
                    if pr.0@ == a@ {
                        lemma_key_fits(pr.0@);
                        assert(k2 as nat == key_spec(a@));
                        assert(k as nat == key_spec(a@));
                        assert(false);
                    }
                    assert(hist.dom().contains(pr.0@) && hist[pr.0@] == old_hist[pr.0@]);
                }
            }
            assert forall|p: Seq<u8>| #[trigger] hist.dom().contains(p) implies {
                &&& p.len() == cfg.width
                &&& table@.dom().contains(key_spec(p) as u64)
                &&& table@[key_spec(p) as u64].0@ == p
            } by {
                if p == a@ {
                } else {
                    lemma_key_fits(p);
                    lemma_key_fits(a@);
                    if key_spec(p) as u64 == k {
                        lemma_key_injective(p, a@);
                        assert(false);
                    }
                }
            }
        }
    }
    let ghost n_a = steps as nat;
    let ghost hist = replay_hist(*cfg, a0@, n_a);
    proof {
        lemma_replay_hist_props(*cfg, a0@, n_a);
    }
    let mut y = clone_bytes(b0);
    let mut m = pollard_next(cfg, b0);
    let mut bsteps: usize = 0;
    loop
        invariant
            cfg.wf(),
            a0@.len() == cfg.width,
            b0@.len() == cfg.width,
            y@.len() == cfg.width,
            m@.len() == cfg.width,
            bsteps <= max_steps,
            y@ == walk_n(*cfg, b0@, bsteps as nat),
            m@ == walk_spec(*cfg, y@),
            hist == replay_hist(*cfg, a0@, n_a),
            first_dp(*cfg, a0@, max_steps as nat) == Some(n_a),
            hist_matches(table@, hist, cfg.width as nat),
            forall|p: Seq<u8>| #[trigger] hist.dom().contains(p) ==> {
                &&& walk_spec(*cfg, hist[p]) == p
                &&& exists|i: nat| i < n_a && hist[p] == walk_n(*cfg, a0@, i)
            },
            seek_divergence(hist, b0@, walk_spec(*cfg, b0@), *cfg, max_steps as nat)
                == seek_divergence(hist, y@, m@, *cfg, (max_steps - bsteps) as nat),
        decreases max_steps - bsteps,
    {
        let k = digest_key(&m);
        proof {
            lemma_key_fits(m@);
        }
        let mut diverged = false;
        let mut x: Vec<u8> = Vec::new();
        match table.get(&k) {
            Some(pr) => {
                proof {
                    lemma_key_injective(pr.0@, m@);
                    assert(hist.dom().contains(m@));
                    assert(hist[m@] == pr.1@);
                }
                if !bytes_eq(&pr.1, &y) {
                    diverged = true;
                    x = clone_bytes(&pr.1);
                }
            },
            None => {
                proof {
                    if hist.dom().contains(m@) {
                        assert(table@.dom().contains(key_spec(m@) as u64));
                        assert(false);
                    }
                }
            },
        }
        if diverged {
            proof {
                assert(seek_divergence(hist, y@, m@, *cfg, (max_steps - bsteps) as nat) == Some(
                    (hist[m@], y@),
                ));
                assert(walk_spec(*cfg, x@) == m@);
            }
            let digest = clone_bytes(&m);
            let msg_x = hash_to_msg(&x);
            let msg_y = hash_to_msg(&y);
            proof {
                let i = choose|i: nat| i < n_a && hist[m@] == walk_n(*cfg, a0@, i);
                assert(x@ == walk_n(*cfg, a0@, i));
                assert(y@ == walk_n(*cfg, b0@, bsteps as nat));
            }
            return Ok(Collision { x, y, digest, msg_x, msg_y });
        }
        if bsteps == max_steps {
            proof {
                assert(seek_divergence(hist, y@, m@, *cfg, 0nat) == Option::<
                    (Seq<u8>, Seq<u8>),
                >::None);
            }
            return Err(SearchError::RefinementOverlapOnly);
        }
        let ghost old_y = y@;
        let ghost old_m = m@;
        let ghost rem = (max_steps - bsteps) as nat;
        let next = pollard_next(cfg, &m);
        y = m;
        m = next;
        bsteps = bsteps + 1;
        proof {
            assert(seek_divergence(hist, old_y, old_m, *cfg, rem) == seek_divergence(
                hist,
                old_m,
                walk_spec(*cfg, old_m),
                *cfg,
                (rem - 1) as nat,
            ));
            assert(walk_n(*cfg, b0@, bsteps as nat) == walk_spec(
                *cfg,
                walk_n(*cfg, b0@, (bsteps - 1) as nat),
            ));
        }
    }
}

} // verus!
