//! The rendezvous coordinator: consumes trails, keeps a table from
//! distinguished endpoint to the start of the first trail that reached it,
//! and reports the first pair of trails sharing an endpoint.

use std::collections::HashMap;

use vstd::prelude::*;

use crate::config::{SearchConfig, SearchError};
use crate::digest::{clone_bytes, digest_key, key_spec, lemma_key_fits, lemma_key_injective};
use crate::trail::Trail;

verus! {

broadcast use vstd::std_specs::hash::group_hash_axioms;

/// Consumes a stream of trails and detects the first shared endpoint.
///
/// The table maps the 64-bit key of a distinguished endpoint to the first
/// trail observed to reach that endpoint; the key is injective on digests of
/// the configured width, so one entry stands for exactly one endpoint.
pub struct Coordinator {
    cfg: SearchConfig,
    table: HashMap<u64, Trail>,
    history: Ghost<Seq<(Seq<u8>, Seq<u8>)>>,
}

impl Coordinator {
    /// The configuration this coordinator was built with.
    pub closed spec fn cfg(self) -> SearchConfig {
        self.cfg
    }

    /// Every (start, endpoint) pair ever offered, in order.
    pub closed spec fn offered(self) -> Seq<(Seq<u8>, Seq<u8>)> {
        self.history@
    }

    /// The rendezvous table, abstractly: distinguished endpoint to the start
    /// of the first trail that reached it.
    pub closed spec fn table(self) -> Map<Seq<u8>, Seq<u8>> {
        Map::new(
            |end: Seq<u8>|
                self.table@.dom().contains(key_spec(end) as u64) && self.table@[key_spec(end)
                    as u64].end@ == end,
            |end: Seq<u8>| self.table@[key_spec(end) as u64].start@,
        )
    }

    /// Number of entries in the rendezvous table.
    pub closed spec fn count(self) -> nat {
        self.table@.len()
    }

    pub closed spec fn wf(self) -> bool {
        &&& self.cfg.wf()
        &&& forall|k: u64|
            self.table@.dom().contains(k) ==> {
                let t = #[trigger] self.table@[k];
                &&& key_spec(t.end@) == k as nat
                &&& t.end@.len() == self.cfg.width
                &&& exists|i: int|
                    0 <= i < self.history@.len() && self.history@[i] == (t.start@, t.end@)
            }
    }

    /// An empty coordinator: no trail offered, no endpoint seen.
    pub fn new(cfg: &SearchConfig) -> (c: Coordinator)
        requires
            cfg.wf(),
        ensures
            c.wf(),
            c.cfg() == *cfg,
            c.offered() == Seq::<(Seq<u8>, Seq<u8>)>::empty(),
            c.table() == Map::<Seq<u8>, Seq<u8>>::empty(),
            c.count() == 0,
    {
        let c = Coordinator {
            cfg: *cfg,
            table: HashMap::new(),
            history: Ghost(Seq::empty()),
        };
        proof {
            assert(c.table() =~= Map::<Seq<u8>, Seq<u8>>::empty());
        }
        c
    }

    /// Offer one trail. Returns the colliding pair of starts as soon as the
    /// offered endpoint was already reached by an earlier trail: first the
    /// stored start, then the offered one. Otherwise records the trail and
    /// returns nothing.
    ///
    /// The pair returned is sound: both of its starts were offered with this
    /// very endpoint, so the two trails converge there.
    pub fn offer(&mut self, t: Trail) -> (r: Option<(Vec<u8>, Vec<u8>)>)
        requires
            old(self).wf(),
            t.end@.len() == old(self).cfg().width,
        ensures
            final(self).wf(),
            final(self).cfg() == old(self).cfg(),
            final(self).offered() == old(self).offered().push((t.start@, t.end@)),
            match r {
                Some(pair) => {
                    &&& old(self).table().dom().contains(t.end@)
                    &&& pair.0@ == old(self).table()[t.end@]
                    &&& pair.1@ == t.start@
                    &&& final(self).table() == old(self).table()
                    &&& final(self).count() == old(self).count()
                    &&& exists|i: int|
                        0 <= i < old(self).offered().len() && old(self).offered()[i] == (
                        pair.0@,
                        t.end@,
                        )
                },
                None => {
                    &&& !old(self).table().dom().contains(t.end@)
                    &&& final(self).table() == old(self).table().insert(t.end@, t.start@)
                    &&& final(self).count() == old(self).count() + 1
                },
            },
    {
        let ghost tv = (t.start@, t.end@);
        let k = digest_key(&t.end);
        proof {
            lemma_key_fits(t.end@);
            assert(key_spec(t.end@) as u64 == k);
        }
        let hit = self.table.contains_key(&k);
        if hit {
            let prev = self.table.get(&k).unwrap();
            proof {
                lemma_key_injective(prev.end@, t.end@);
                assert(old(self).table().dom().contains(t.end@));
            }
            let a = clone_bytes(&prev.start);
            let b = clone_bytes(&t.start);
            self.history = Ghost(self.history@.push(tv));
            proof {
                assert(self.table() =~= old(self).table());
                assert forall|kk: u64| self.table@.dom().contains(kk) implies exists|i: int|
                    0 <= i < self.history@.len() && self.history@[i] == (
                    (#[trigger] self.table@[kk]).start@,
                    self.table@[kk].end@,
                    ) by {
                    let tt = self.table@[kk];
                    let i = choose|i: int|
                        0 <= i < old(self).history@.len() && old(self).history@[i] == (
                        tt.start@,
                        tt.end@,
                        );
                    assert(self.history@[i] == (tt.start@, tt.end@));
                }
            }
            Some((a, b))
        } else {
            proof {
                assert(!old(self).table().dom().contains(t.end@));
            }
            self.table.insert(k, t);
            self.history = Ghost(self.history@.push(tv));
            proof {
                broadcast use vstd::set::group_set_axioms;

                assert(self.table@ == old(self).table@.insert(k, t));
                assert(self.table() =~= old(self).table().insert(tv.1, tv.0)) by {
                    assert forall|e: Seq<u8>| #![all_triggers] true implies {
                        (self.table().dom().contains(e) <==> old(self).table().insert(
                            tv.1,
                            tv.0,
                        ).dom().contains(e)) && (self.table().dom().contains(e)
                            ==> self.table()[e] == old(self).table().insert(tv.1, tv.0)[e])
                    } by {
                        if e == tv.1 {
                        } else {
                            if key_spec(e) as u64 == k {
                                assert(self.table@[key_spec(e) as u64].end@ == tv.1);
                            }
                        }
                    }
                }
                assert(self.table@.dom() == old(self).table@.dom().insert(k));
                assert(self.count() == old(self).count() + 1);
                assert forall|kk: u64| self.table@.dom().contains(kk) implies exists|i: int|
                    0 <= i < self.history@.len() && self.history@[i] == (
                    (#[trigger] self.table@[kk]).start@,
                    self.table@[kk].end@,
                    ) by {
                    let tt = self.table@[kk];
                    if kk == k {
                        assert(self.history@[self.history@.len() - 1] == (tt.start@, tt.end@));
                    } else {
                        let i = choose|i: int|
                            0 <= i < old(self).history@.len() && old(self).history@[i] == (
                            tt.start@,
                            tt.end@,
                            );
                        assert(self.history@[i] == (tt.start@, tt.end@));
                    }
                }
            }
            None
        }
    }

    /// Number of distinct endpoints recorded so far.
    pub fn table_len(&self) -> (n: usize)
        ensures
            n == self.count(),
    {
        self.table.len()
    }
}

/// The (start, endpoint) views of a sequence of trails.
pub open spec fn trail_views(ts: Seq<Trail>) -> Seq<(Seq<u8>, Seq<u8>)> {
    Seq::new(ts.len(), |i: int| (ts[i].start@, ts[i].end@))
}

/// What consuming a stream of trails detects: the first pair of starts
/// whose trails share an endpoint, given the endpoints already seen. The
/// pair is the stored start first, the arriving one second.
pub open spec fn detect_spec(
    trails: Seq<(Seq<u8>, Seq<u8>)>,
    seen: Map<Seq<u8>, Seq<u8>>,
) -> Option<(Seq<u8>, Seq<u8>)>
    decreases trails.len(),
{
    if trails.len() == 0 {
        None
    } else if seen.dom().contains(trails[0].1) {
        Some((seen[trails[0].1], trails[0].0))
    } else {
        detect_spec(trails.drop_first(), seen.insert(trails[0].1, trails[0].0))
    }
}

/// Detection returned `pair` rightly if some trail `j` of the stream
/// carries the second start, and the first start reached the very same
/// endpoint: either as an earlier trail `i` of the stream, or in the table
/// of endpoints already seen when the stream began.
pub open spec fn sound_witness(
    trails: Seq<(Seq<u8>, Seq<u8>)>,
    seen: Map<Seq<u8>, Seq<u8>>,
    pair: (Seq<u8>, Seq<u8>),
    j: int,
) -> bool {
    &&& 0 <= j < trails.len()
    &&& pair.1 == trails[j].0
    &&& ((seen.dom().contains(trails[j].1) && pair.0 == seen[trails[j].1]) || exists|i: int|
        0 <= i < j && (#[trigger] trails[i]).1 == trails[j].1 && pair.0 == trails[i].0)
}

/// Law: rendezvous detection is sound. It never returns a pair of starts
/// whose trails reached different endpoints: whatever pair it returns, both
/// starts arrived with one and the same endpoint.
pub proof fn lemma_detect_sound(trails: Seq<(Seq<u8>, Seq<u8>)>, seen: Map<Seq<u8>, Seq<u8>>)
    ensures
        match detect_spec(trails, seen) {
            Some(pair) => exists|j: int| sound_witness(trails, seen, pair, j),
            None => true,
        },
    decreases trails.len(),
{
    if trails.len() == 0 {
    } else if seen.dom().contains(trails[0].1) {
        let pair = (seen[trails[0].1], trails[0].0);
        assert(sound_witness(trails, seen, pair, 0));
    } else {
        let d = trails.drop_first();
        let seen2 = seen.insert(trails[0].1, trails[0].0);
        lemma_detect_sound(d, seen2);
        assert(detect_spec(trails, seen) == detect_spec(d, seen2));
        match detect_spec(d, seen2) {
            Some(pair) => {
                let j2 = choose|j2: int| sound_witness(d, seen2, pair, j2);
                let j = j2 + 1;
                assert(trails[j] == d[j2]);
                if seen2.dom().contains(d[j2].1) && pair.0 == seen2[d[j2].1] {
                    if d[j2].1 == trails[0].1 {
                        assert(0 < j && trails[0].1 == trails[j].1 && pair.0 == trails[0].0);
                    } else {
                        assert(seen.dom().contains(trails[j].1) && pair.0 == seen[trails[j].1]);
                    }
                } else {
                    let i2 = choose|i2: int|
                        0 <= i2 < j2 && (#[trigger] d[i2]).1 == d[j2].1 && pair.0 == d[i2].0;
                    assert(trails[i2 + 1] == d[i2]);
                    assert(0 <= i2 + 1 < j && trails[i2 + 1].1 == trails[j].1 && pair.0 == trails[i2
                        + 1].0);
                }
                assert(sound_witness(trails, seen, pair, j));
            },
            None => {},
        }
    }
    match detect_spec(trails, seen) {
        Some(pair) => {
            assert(exists|j: int| sound_witness(trails, seen, pair, j));
        },
        None => {},
    }
}

/// Consume a finite stream of trails in order until two share an endpoint,
/// and return the two trail starts; fail if the stream ends first.
pub fn find_collision(cfg: &SearchConfig, trails: &Vec<Trail>) -> (r: Result<
    (Vec<u8>, Vec<u8>),
    SearchError,
>)
    requires
        cfg.wf(),
        forall|i: int| 0 <= i < trails@.len() ==> (#[trigger] trails@[i]).end@.len() == cfg.width,
    ensures
        match r {
            Ok(pair) => {
                &&& detect_spec(trail_views(trails@), Map::empty()) == Some((pair.0@, pair.1@))
                &&& exists|j: int|
                    sound_witness(trail_views(trails@), Map::empty(), (pair.0@, pair.1@), j)
            },
            Err(e) => {
                &&& e == SearchError::ChannelClosedPrematurely
                &&& detect_spec(trail_views(trails@), Map::empty()) == Option::<
                    (Seq<u8>, Seq<u8>),
                >::None
            },
        },
{
    let mut c = Coordinator::new(cfg);
    let mut i: usize = 0;
    proof {
        assert(trail_views(trails@).subrange(0, trails@.len() as int) =~= trail_views(trails@));
    }
    while i < trails.len()
        invariant
            cfg.wf(),
            c.wf(),
            c.cfg() == *cfg,
            i <= trails@.len(),
            forall|j: int|
                0 <= j < trails@.len() ==> (#[trigger] trails@[j]).end@.len() == cfg.width,
            detect_spec(trail_views(trails@), Map::<Seq<u8>, Seq<u8>>::empty()) == detect_spec(
                trail_views(trails@).subrange(i as int, trails@.len() as int),
                c.table(),
            ),
        decreases trails@.len() - i,
    {
        let t = &trails[i];
        let tt = Trail { start: clone_bytes(&t.start), end: clone_bytes(&t.end) };
        let ghost rest = trail_views(trails@).subrange(i as int, trails@.len() as int);
        proof {
            assert(rest[0] == (trails@[i as int].start@, trails@[i as int].end@));
            assert(rest.drop_first() =~= trail_views(trails@).subrange(
                i + 1,
                trails@.len() as int,
            ));
        }
        let res = c.offer(tt);
        match res {
            Some(pair) => {
                proof {
                    lemma_detect_sound(trail_views(trails@), Map::empty());
                    assert(detect_spec(trail_views(trails@), Map::empty()) == Some(
                        (pair.0@, pair.1@),
                    ));
                    assert(exists|j: int|
                        sound_witness(trail_views(trails@), Map::empty(), (pair.0@, pair.1@), j));
                }
                return Ok(pair);
            },
            None => {},
        }
        i += 1;
    }
    proof {
        assert(trail_views(trails@).subrange(trails@.len() as int, trails@.len() as int)
            =~= Seq::<(Seq<u8>, Seq<u8>)>::empty());
    }
    Err(SearchError::ChannelClosedPrematurely)
}

} // verus!
