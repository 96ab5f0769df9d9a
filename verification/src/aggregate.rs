//! The co-occurrence aggregator: for one identity, its visited locations
//! are collapsed to distinct place keys, the distinct occupants of each key
//! are collected, and the per-key occupant sets are merged into one map.
//!
//! The count a co-occupant ends up with is the number of distinct place
//! keys at which it was seen with the queried identity — never a raw event
//! count: an identity appearing in many events at one place counts once for
//! that place.

use crate::cache::ArcStrMap;
use crate::gamelog_join_leave::GamelogJoinLeaveView;
use crate::is_kat::{Id, SentinelConfig};
use crate::repo::{
    contains_string, in_str_views, occupants_at, spec_occupants, PresenceLog,
};
use crate::world_instance::WorldInstance;
use vstd::prelude::*;

verus! {

/// Identity (or display name) to co-occurrence count.
pub type CoOccurrenceMap = ArcStrMap<u32>;

/// First-occurrence deduplication of a key sequence.
pub open spec fn dedup_keys(s: Seq<Seq<char>>) -> Seq<Seq<char>>
    decreases s.len(),
{
    if s.len() == 0 {
        Seq::empty()
    } else {
        let rest = dedup_keys(s.drop_last());
        if rest.contains(s.last()) {
            rest
        } else {
            rest.push(s.last())
        }
    }
}

/// The deduplicated sequence holds exactly the keys of the input, each
/// once, no longer than the input.
pub proof fn lemma_dedup_keys(s: Seq<Seq<char>>)
    ensures
        forall|k: Seq<char>| dedup_keys(s).contains(k) <==> s.contains(k),
        forall|a: int, b: int|
            0 <= a < b < dedup_keys(s).len() ==> dedup_keys(s)[a] != dedup_keys(s)[b],
        dedup_keys(s).len() <= s.len(),
    decreases s.len(),
{
    if s.len() > 0 {
        lemma_dedup_keys(s.drop_last());
        let rest = dedup_keys(s.drop_last());
        assert forall|k: Seq<char>| dedup_keys(s).contains(k) implies s.contains(k) by {
            if rest.contains(k) {
                assert(s.drop_last().contains(k));
                let i = choose|i: int| 0 <= i < s.drop_last().len() && s.drop_last()[i] == k;
                assert(s[i] == k);
            } else {
                assert(s[s.len() - 1] == k);
            }
        }
        assert forall|k: Seq<char>| s.contains(k) implies dedup_keys(s).contains(k) by {
            let i = choose|i: int| 0 <= i < s.len() && s[i] == k;
            if i < s.len() - 1 {
                assert(s.drop_last()[i] == k);
                assert(s.drop_last().contains(k));
                assert(rest.contains(k));
                if !rest.contains(s.last()) {
                    let j = choose|j: int| 0 <= j < rest.len() && rest[j] == k;
                    assert(dedup_keys(s)[j] == k);
                }
            } else {
                assert(k == s.last());
                if rest.contains(k) {
                } else {
                    assert(dedup_keys(s)[dedup_keys(s).len() - 1] == k);
                }
            }
        }
        if !rest.contains(s.last()) {
            assert forall|a: int, b: int|
                0 <= a < b < dedup_keys(s).len() implies dedup_keys(s)[a] != dedup_keys(
                s,
            )[b] by {
                if b == dedup_keys(s).len() - 1 {
                    assert(rest[a] == dedup_keys(s)[a]);
                    assert(!rest.contains(s.last()));
                }
            }
        }
    }
}

/// The place keys of a location set: each location's
/// `world_id:instance_id`, first occurrences kept, in order.
pub open spec fn spec_location_keys(locs: Seq<WorldInstance>) -> Seq<Seq<char>> {
    dedup_keys(locs.map_values(|w: WorldInstance| w@.prefix()))
}

/// Whether `uid` was observed at the place with join key `key`, with `excl`
/// excluded from the occupants.
pub open spec fn spec_seen_at(
    log: Seq<GamelogJoinLeaveView>,
    key: Seq<char>,
    excl: Seq<char>,
    uid: Seq<char>,
) -> bool {
    spec_occupants(log, key, excl).contains(uid)
}

/// At how many of the given place keys `uid` was observed.
pub open spec fn count_keys_seen(
    log: Seq<GamelogJoinLeaveView>,
    excl: Seq<char>,
    keys: Seq<Seq<char>>,
    uid: Seq<char>,
) -> nat
    decreases keys.len(),
{
    if keys.len() == 0 {
        0
    } else {
        count_keys_seen(log, excl, keys.drop_last(), uid) + (if spec_seen_at(
            log,
            keys.last(),
            excl,
            uid,
        ) {
            1nat
        } else {
            0nat
        })
    }
}

/// The co-occurrence count of `uid` with the queried identity `excl` over
/// the place keys `keys`: the number of those keys at which `uid` was
/// observed, and zero when the active exclusion drops `uid`.
pub open spec fn spec_co_count(
    log: Seq<GamelogJoinLeaveView>,
    excl: Seq<char>,
    cfg: SentinelConfig,
    keys: Seq<Seq<char>>,
    uid: Seq<char>,
) -> nat {
    if cfg.spec_drops_id(uid) {
        0
    } else {
        count_keys_seen(log, excl, keys, uid)
    }
}

/// A key count never exceeds the number of keys.
pub proof fn lemma_count_keys_seen_bound(
    log: Seq<GamelogJoinLeaveView>,
    excl: Seq<char>,
    keys: Seq<Seq<char>>,
    uid: Seq<char>,
)
    ensures
        count_keys_seen(log, excl, keys, uid) <= keys.len(),
    decreases keys.len(),
{
    if keys.len() > 0 {
        lemma_count_keys_seen_bound(log, excl, keys.drop_last(), uid);
    }
}

/// Aggregate co-occurrence for one identity over its visited locations.
///
/// The resulting map binds exactly the identities whose count is positive,
/// and binds each to [`spec_co_count`]: the number of distinct place keys
/// of `locations` at which it was observed with `user_id`, with blanks and
/// `user_id` itself never counted and the sentinel identity dropped while
/// the exclusion flag is set.
pub fn get_others_for(
    user_id: &Id,
    log: &PresenceLog,
    locations: &Vec<WorldInstance>,
    cfg: &SentinelConfig,
) -> (r: CoOccurrenceMap)
    requires
        locations@.len() < u32::MAX,
    ensures
        r.wf(),
        forall|uid: Seq<char>| #[trigger]
            r@.contains_key(uid) <==> spec_co_count(
                log@,
                user_id@,
                *cfg,
                spec_location_keys(locations@),
                uid,
            ) > 0,
        forall|uid: Seq<char>| #[trigger]
            r@.contains_key(uid) ==> r@[uid] == spec_co_count(
                log@,
                user_id@,
                *cfg,
                spec_location_keys(locations@),
                uid,
            ),
{
    let ghost prefixes = locations@.map_values(|w: WorldInstance| w@.prefix());
    let nloc = locations.len();
    let mut keys: Vec<String> = Vec::new();
    let mut i: usize = 0;
    while i < nloc
        invariant
            nloc == locations@.len(),
            i <= nloc,
            prefixes == locations@.map_values(|w: WorldInstance| w@.prefix()),
            keys@.map_values(|s: String| s@) =~= dedup_keys(prefixes.take(i as int)),
            forall|a: int, b: int|
                0 <= a < b < keys@.len() ==> (#[trigger] keys@[a])@ != (#[trigger] keys@[b])@,
        decreases nloc - i,
    {
        let p = locations[i].get_prefix();
        let ghost keys0 = keys@;
        push_key(&mut keys, p);
        proof {
            let pre = prefixes.take(i as int);
            let cur = prefixes.take(i as int + 1);
            assert(cur.drop_last() =~= pre);
            assert(cur.last() == prefixes[i as int]);
            assert(prefixes[i as int] == locations@[i as int]@.prefix());
            let rest = dedup_keys(pre);
            assert(rest =~= keys0.map_values(|s: String| s@));
            if rest.contains(cur.last()) {
                let j = choose|j: int| 0 <= j < rest.len() && rest[j] == cur.last();
                assert(keys0[j]@ == cur.last());
                assert(in_str_views(keys0, cur.last()));
                assert(keys@ == keys0);
                assert(keys@.map_values(|s: String| s@) =~= dedup_keys(cur));
            } else {
                assert(!in_str_views(keys0, cur.last())) by {
                    if in_str_views(keys0, cur.last()) {
                        let j = choose|j: int|
                            0 <= j < keys0.len() && (#[trigger] keys0[j])@ == cur.last();
                        assert(rest[j] == cur.last());
                    }
                }
                assert(keys@.map_values(|s: String| s@) =~= dedup_keys(cur));
            }
        }
        i = i + 1;
    }
    proof {
        assert(prefixes.take(nloc as int) =~= prefixes);
        lemma_dedup_keys(prefixes);
    }
    let ghost keyseq = keys@.map_values(|s: String| s@);
    proof {
        assert(keyseq.len() == keys@.len());
        assert(keyseq.len() <= prefixes.len());
    }
    let nkeys = keys.len();
    let mut r: CoOccurrenceMap = ArcStrMap::new();
    let mut k: usize = 0;
    while k < nkeys
        invariant
            nkeys == keys@.len(),
            keyseq.len() == nkeys,
            k <= nkeys,
            nkeys < u32::MAX,
            keyseq == keys@.map_values(|s: String| s@),
            keyseq == spec_location_keys(locations@),
            r.wf(),
            forall|uid: Seq<char>| #[trigger]
                r@.contains_key(uid) <==> spec_co_count(
                    log@,
                    user_id@,
                    *cfg,
                    keyseq.take(k as int),
                    uid,
                ) > 0,
            forall|uid: Seq<char>| #[trigger]
                r@.contains_key(uid) ==> r@[uid] == spec_co_count(
                    log@,
                    user_id@,
                    *cfg,
                    keyseq.take(k as int),
                    uid,
                ),
        decreases nkeys - k,
    {
        let occ = occupants_at(log, &keys[k], user_id, cfg);
        let ghost taken = keyseq.take(k as int);
        let ghost taken1 = keyseq.take(k as int + 1);
        proof {
            assert(taken1.drop_last() =~= taken);
            assert(taken1.last() == keyseq[k as int]);
            assert(keyseq[k as int] == keys@[k as int]@);
        }
        let nocc = occ.len();
        let mut j: usize = 0;
        while j < nocc
            invariant
                nocc == occ@.len(),
                j <= nocc,
                nkeys == keys@.len(),
                keyseq.len() == nkeys,
                k < nkeys,
                nkeys < u32::MAX,
                taken == keyseq.take(k as int),
                taken1 == keyseq.take(k as int + 1),
                taken1.drop_last() == taken,
                taken1.last() == keys@[k as int]@,
                forall|a: int, b: int|
                    0 <= a < b < occ@.len() ==> (#[trigger] occ@[a])@ != (#[trigger] occ@[b])@,
                forall|jj: int|
                    0 <= jj < occ@.len() ==> spec_occupants(log@, keys@[k as int]@, user_id@)
                        .contains((#[trigger] occ@[jj])@) && !cfg.spec_drops_id(occ@[jj]@),
                forall|uid: Seq<char>|
                    spec_occupants(log@, keys@[k as int]@, user_id@).contains(uid)
                        && !cfg.spec_drops_id(uid) ==> in_str_views(occ@, uid),
                r.wf(),
                forall|uid: Seq<char>| #[trigger]
                    r@.contains_key(uid) <==> spec_co_count(log@, user_id@, *cfg, taken, uid) + (
                    if in_str_views(occ@.take(j as int), uid) {
                        1nat
                    } else {
                        0nat
                    }) > 0,
                forall|uid: Seq<char>| #[trigger]
                    r@.contains_key(uid) ==> r@[uid] == spec_co_count(log@, user_id@, *cfg, taken, uid)
                        + (if in_str_views(occ@.take(j as int), uid) {
                        1nat
                    } else {
                        0nat
                    }),
            decreases nocc - j,
        {
            let uid = &occ[j];
            proof {
                assert(occ@[j as int]@ == uid@);
                assert(!in_str_views(occ@.take(j as int), uid@)) by {
                    if in_str_views(occ@.take(j as int), uid@) {
                        let a = choose|a: int|
                            0 <= a < j && (#[trigger] occ@.take(j as int)[a])@ == uid@;
                        assert((occ@[a])@ == uid@);
                    }
                }
                lemma_count_keys_seen_bound(log@, user_id@, taken, uid@);
                assert(taken.len() <= nkeys);
            }
            let prev = match r.get(uid) {
                Some(c) => *c,
                None => 0,
            };
            r.insert(uid.clone(), prev + 1);
            proof {
                let ghost old_take = occ@.take(j as int);
                let ghost new_take = occ@.take(j as int + 1);
                assert(new_take.drop_last() =~= old_take);
                assert(new_take.last() == occ@[j as int]);
                assert forall|x: Seq<char>| in_str_views(new_take, x) <==> (in_str_views(
                    old_take,
                    x,
                ) || x == uid@) by {
                    if in_str_views(new_take, x) {
                        let a = choose|a: int|
                            0 <= a < new_take.len() && (#[trigger] new_take[a])@ == x;
                        if a < j {
                            assert(old_take[a]@ == x);
                        }
                    }
                    if in_str_views(old_take, x) {
                        let a = choose|a: int|
                            0 <= a < old_take.len() && (#[trigger] old_take[a])@ == x;
                        assert(new_take[a]@ == x);
                    }
                    if x == uid@ {
                        assert(new_take[j as int]@ == x);
                    }
                }
            }
            j = j + 1;
        }
        proof {
            assert(occ@.take(nocc as int) =~= occ@);
            assert forall|uid: Seq<char>|
                spec_co_count(log@, user_id@, *cfg, taken1, uid) == spec_co_count(
                    log@,
                    user_id@,
                    *cfg,
                    taken,
                    uid,
                ) + (if in_str_views(occ@, uid) {
                    1nat
                } else {
                    0nat
                }) by {
                if !cfg.spec_drops_id(uid) {
                    assert(count_keys_seen(log@, user_id@, taken1, uid) == count_keys_seen(
                        log@,
                        user_id@,
                        taken,
                        uid,
                    ) + (if spec_seen_at(log@, taken1.last(), user_id@, uid) {
                        1nat
                    } else {
                        0nat
                    }));
                    assert(spec_seen_at(log@, keys@[k as int]@, user_id@, uid) <==> in_str_views(
                        occ@,
                        uid,
                    ));
                } else {
                    assert(!in_str_views(occ@, uid)) by {
                        if in_str_views(occ@, uid) {
                            let a = choose|a: int|
                                0 <= a < occ@.len() && (#[trigger] occ@[a])@ == uid;
                        }
                    }
                }
            }
        }
        k = k + 1;
    }
    proof {
        assert(keyseq.take(nkeys as int) =~= keyseq);
    }
    r
}

/// Add the key unless an equal one is already in the list.
fn push_key(keys: &mut Vec<String>, p: String)
    requires
        forall|a: int, b: int|
            0 <= a < b < old(keys)@.len() ==> (#[trigger] old(keys)@[a])@ != (
            #[trigger] old(keys)@[b])@,
    ensures
        forall|a: int, b: int|
            0 <= a < b < final(keys)@.len() ==> (#[trigger] final(keys)@[a])@ != (
            #[trigger] final(keys)@[b])@,
        in_str_views(old(keys)@, p@) ==> final(keys)@ == old(keys)@,
        !in_str_views(old(keys)@, p@) ==> final(keys)@.len() == old(keys)@.len() + 1 && (forall|
            j: int,
        |
            0 <= j < old(keys)@.len() ==> final(keys)@[j] == old(keys)@[j]) && final(keys)@[old(
            keys,
        )@.len() as int]@ == p@,
{
    if !contains_string(keys, &p) {
        keys.push(p);
    }
}

} // verus!
