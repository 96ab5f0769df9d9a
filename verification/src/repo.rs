//! The in-memory presence log and the three read operations the pipeline
//! issues against it: the distinct locations an identity visited, the
//! distinct occupants of a place, and the most recent display name bound to
//! an identity (read through the shared cache).
//!
//! The surrounding application loads the rows from the embedded store and
//! hands them over as plain values; everything that is computed from them
//! is verified here.

use crate::cache::ArcStrMap;
use crate::error::Error;
use crate::gamelog_join_leave::{GamelogJoinLeave, GamelogJoinLeaveView};
use crate::is_kat::{Id, Name, SentinelConfig};
use crate::text::{lex_le, str_lex_le};
use crate::world_instance::{WorldInstance, WorldInstanceView};
use vstd::prelude::*;

verus! {

/// The chronological presence log, one typed event per row.
#[derive(Debug)]
pub struct PresenceLog {
    pub rows: Vec<GamelogJoinLeave>,
}

impl View for PresenceLog {
    type V = Seq<GamelogJoinLeaveView>;

    open spec fn view(&self) -> Seq<GamelogJoinLeaveView> {
        self.rows@.map_values(|r: GamelogJoinLeave| r@)
    }
}

impl PresenceLog {
    /// An empty log.
    pub fn new() -> (r: Self)
        ensures
            r@ =~= Seq::<GamelogJoinLeaveView>::empty(),
    {
        PresenceLog { rows: Vec::new() }
    }

    /// Append one event.
    pub fn push(&mut self, row: GamelogJoinLeave)
        ensures
            final(self)@ =~= old(self)@.push(row@),
    {
        self.rows.push(row);
    }

    /// The number of rows.
    pub fn len(&self) -> (r: usize)
        ensures
            r == self@.len(),
    {
        self.rows.len()
    }
}

/// Whether a row stands at the place with join key `key`.
pub open spec fn row_is_at(row: GamelogJoinLeaveView, key: Seq<char>) -> bool {
    match row.location {
        Some(w) => w.prefix() == key,
        None => false,
    }
}

/// Whether some entry of the sequence views to `w`.
pub open spec fn in_views(s: Seq<WorldInstance>, w: WorldInstanceView) -> bool {
    exists|j: int| 0 <= j < s.len() && (#[trigger] s[j])@ == w
}

/// Whether some entry of the sequence views to `k`.
pub open spec fn in_str_views(s: Seq<String>, k: Seq<char>) -> bool {
    exists|j: int| 0 <= j < s.len() && (#[trigger] s[j])@ == k
}

/// The distinct locations the identity was logged at: all location values
/// of rows carrying it.
pub open spec fn spec_locations(log: Seq<GamelogJoinLeaveView>, id: Seq<char>) -> Set<
    WorldInstanceView,
> {
    Set::new(
        |w: WorldInstanceView|
            exists|i: int|
                0 <= i < log.len() && (#[trigger] log[i]).user_id == Some(id) && log[i].location
                    == Some(w),
    )
}

/// The distinct non-blank identities logged at the place with join key
/// `key`, the identity `excl` excluded.
pub open spec fn spec_occupants(
    log: Seq<GamelogJoinLeaveView>,
    key: Seq<char>,
    excl: Seq<char>,
) -> Set<Seq<char>> {
    Set::new(
        |uid: Seq<char>|
            uid.len() > 0 && uid != excl && exists|i: int|
                0 <= i < log.len() && (#[trigger] log[i]).user_id == Some(uid) && row_is_at(
                    log[i],
                    key,
                ),
    )
}

/// All distinct locations of the identity's rows, each exactly once.
pub fn get_locations_for(user_id: &Id, log: &PresenceLog) -> (r: Vec<WorldInstance>)
    ensures
        forall|a: int, b: int| 0 <= a < b < r@.len() ==> (#[trigger] r@[a])@ != (#[trigger] r@[b])@,
        forall|j: int|
            0 <= j < r@.len() ==> spec_locations(log@, user_id@).contains((#[trigger] r@[j])@),
        forall|w: WorldInstanceView|
            spec_locations(log@, user_id@).contains(w) ==> in_views(r@, w),
        r@.len() <= log@.len(),
{
    let n = log.rows.len();
    let mut r: Vec<WorldInstance> = Vec::new();
    let mut i: usize = 0;
    while i < n
        invariant
            n == log@.len(),
            n == log.rows@.len(),
            i <= n,
            r@.len() <= i,
            forall|a: int, b: int|
                0 <= a < b < r@.len() ==> (#[trigger] r@[a])@ != (#[trigger] r@[b])@,
            forall|j: int|
                0 <= j < r@.len() ==> spec_locations(log@, user_id@).contains((#[trigger] r@[j])@),
            forall|ii: int, w: WorldInstanceView|
                #![trigger log@[ii].user_id, in_views(r@, w)]
                0 <= ii < i && log@[ii].user_id == Some(user_id@) && log@[ii].location == Some(w)
                    ==> in_views(r@, w),
        decreases n - i,
    {
        let row = &log.rows[i];
        let matches_user = match &row.user_id {
            Some(u) => *u == user_id.0,
            None => false,
        };
        if matches_user {
            match &row.location {
                Some(w) => {
                    proof {
                        assert(log@[i as int].location == Some(w@));
                        assert(spec_locations(log@, user_id@).contains(w@));
                    }
                    push_unique_instance(&mut r, w);
                },
                None => {},
            }
        }
        i = i + 1;
    }
    proof {
        assert forall|w: WorldInstanceView|
            spec_locations(log@, user_id@).contains(w) implies in_views(r@, w) by {
            let ii = choose|ii: int|
                0 <= ii < log@.len() && (#[trigger] log@[ii]).user_id == Some(user_id@)
                    && log@[ii].location == Some(w);
            assert(log@[ii].location == Some(w));
        }
    }
    r
}

/// Whether an equal location is already in the list.
fn contains_instance(v: &Vec<WorldInstance>, w: &WorldInstance) -> (r: bool)
    ensures
        r == in_views(v@, w@),
{
    let n = v.len();
    let mut i: usize = 0;
    while i < n
        invariant
            n == v@.len(),
            i <= n,
            forall|j: int| 0 <= j < i ==> (#[trigger] v@[j])@ != w@,
        decreases n - i,
    {
        if &v[i] == w {
            return true;
        }
        i = i + 1;
    }
    false
}

/// Whether an equal string is already in the list.
pub fn contains_string(v: &Vec<String>, s: &String) -> (r: bool)
    ensures
        r == in_str_views(v@, s@),
{
    let n = v.len();
    let mut i: usize = 0;
    while i < n
        invariant
            n == v@.len(),
            i <= n,
            forall|j: int| 0 <= j < i ==> (#[trigger] v@[j])@ != s@,
        decreases n - i,
    {
        if v[i] == *s {
            return true;
        }
        i = i + 1;
    }
    false
}

/// Add the location unless an equal one is already in the list.
fn push_unique_instance(r: &mut Vec<WorldInstance>, w: &WorldInstance)
    requires
        forall|a: int, b: int|
            0 <= a < b < old(r)@.len() ==> (#[trigger] old(r)@[a])@ != (#[trigger] old(r)@[b])@,
    ensures
        forall|a: int, b: int|
            0 <= a < b < final(r)@.len() ==> (#[trigger] final(r)@[a])@ != (
            #[trigger] final(r)@[b])@,
        forall|x: WorldInstanceView|
            #![trigger in_views(final(r)@, x)]
            in_views(final(r)@, x) <==> (in_views(old(r)@, x) || x == w@),
        forall|j: int|
            0 <= j < final(r)@.len() ==> (#[trigger] final(r)@[j])@ == w@ || in_views(
                old(r)@,
                final(r)@[j]@,
            ),
        final(r)@.len() <= old(r)@.len() + 1,
{
    let ghost r0 = r@;
    if !contains_instance(r, w) {
        r.push(w.clone());
        proof {
            assert(forall|j: int| 0 <= j < r0.len() ==> r@[j] == r0[j]);
            assert((r@[r@.len() - 1])@ == w@);
            assert forall|x: WorldInstanceView| in_views(r@, x) implies (in_views(r0, x) || x
                == w@) by {
                let j = choose|j: int| 0 <= j < r@.len() && (#[trigger] r@[j])@ == x;
                if j < r0.len() {
                    assert(r0[j]@ == x);
                }
            }
            assert forall|x: WorldInstanceView| in_views(r0, x) implies in_views(r@, x) by {
                let j = choose|j: int| 0 <= j < r0.len() && (#[trigger] r0[j])@ == x;
                assert(r@[j]@ == x);
            }
            assert(in_views(r@, w@));
        }
    } else {
        proof {
            assert(in_views(r@, w@));
        }
    }
}

/// Add the string unless an equal one is already in the list (shared by the
/// aggregation and projection stages).
pub fn push_unique_string(r: &mut Vec<String>, s: &String)
    requires
        forall|a: int, b: int|
            0 <= a < b < old(r)@.len() ==> (#[trigger] old(r)@[a])@ != (#[trigger] old(r)@[b])@,
    ensures
        forall|a: int, b: int|
            0 <= a < b < final(r)@.len() ==> (#[trigger] final(r)@[a])@ != (
            #[trigger] final(r)@[b])@,
        forall|x: Seq<char>|
            #![trigger in_str_views(final(r)@, x)]
            in_str_views(final(r)@, x) <==> (in_str_views(old(r)@, x) || x == s@),
        forall|j: int|
            0 <= j < final(r)@.len() ==> (#[trigger] final(r)@[j])@ == s@ || in_str_views(
                old(r)@,
                final(r)@[j]@,
            ),
        in_str_views(old(r)@, s@) ==> final(r)@ == old(r)@,
        !in_str_views(old(r)@, s@) ==> final(r)@.len() == old(r)@.len() + 1 && (forall|j: int|
            0 <= j < old(r)@.len() ==> final(r)@[j] == old(r)@[j]) && final(r)@[old(r)@.len() as int]@
            == s@,
{
    let ghost r0 = r@;
    if !contains_string(r, s) {
        r.push(s.clone());
        proof {
            assert(forall|j: int| 0 <= j < r0.len() ==> r@[j] == r0[j]);
            assert((r@[r@.len() - 1])@ == s@);
            assert forall|x: Seq<char>| in_str_views(r@, x) implies (in_str_views(r0, x) || x
                == s@) by {
                let j = choose|j: int| 0 <= j < r@.len() && (#[trigger] r@[j])@ == x;
                if j < r0.len() {
                    assert(r0[j]@ == x);
                }
            }
            assert forall|x: Seq<char>| in_str_views(r0, x) implies in_str_views(r@, x) by {
                let j = choose|j: int| 0 <= j < r0.len() && (#[trigger] r0[j])@ == x;
                assert(r@[j]@ == x);
            }
            assert(in_str_views(r@, s@));
        }
    } else {
        proof {
            assert(in_str_views(r@, s@));
        }
    }
}

/// The distinct occupants of the place with join key `key`, blanks and the
/// querying identity excluded, and the sentinel identity dropped while the
/// exclusion flag is set.
pub fn occupants_at(log: &PresenceLog, key: &String, excl: &Id, cfg: &SentinelConfig) -> (r: Vec<
    String,
>)
    ensures
        forall|a: int, b: int| 0 <= a < b < r@.len() ==> (#[trigger] r@[a])@ != (#[trigger] r@[b])@,
        forall|j: int|
            0 <= j < r@.len() ==> spec_occupants(log@, key@, excl@).contains((#[trigger] r@[j])@)
                && !cfg.spec_drops_id(r@[j]@),
        forall|uid: Seq<char>|
            spec_occupants(log@, key@, excl@).contains(uid) && !cfg.spec_drops_id(uid)
                ==> in_str_views(r@, uid),
{
    let n = log.rows.len();
    let mut r: Vec<String> = Vec::new();
    let mut i: usize = 0;
    while i < n
        invariant
            n == log@.len(),
            n == log.rows@.len(),
            i <= n,
            forall|a: int, b: int|
                0 <= a < b < r@.len() ==> (#[trigger] r@[a])@ != (#[trigger] r@[b])@,
            forall|j: int|
                0 <= j < r@.len() ==> spec_occupants(log@, key@, excl@).contains(
                    (#[trigger] r@[j])@,
                ) && !cfg.spec_drops_id(r@[j]@),
            forall|ii: int, uid: Seq<char>|
                #![trigger log@[ii].user_id, in_str_views(r@, uid)]
                0 <= ii < i && log@[ii].user_id == Some(uid) && row_is_at(log@[ii], key@)
                    && uid.len() > 0 && uid != excl@ && !cfg.spec_drops_id(uid) ==> in_str_views(
                    r@,
                    uid,
                ),
        decreases n - i,
    {
        let row = &log.rows[i];
        match (&row.user_id, &row.location) {
            (Some(u), Some(w)) => {
                let at_key = w.get_prefix() == *key;
                let keep = at_key && !u.as_str().is_empty() && !(*u == excl.0) && !(cfg.kat_exists
                    && *u == cfg.kat_id);
                if keep {
                    proof {
                        assert(log@[i as int].user_id == Some(u@));
                        assert(row_is_at(log@[i as int], key@));
                        assert(spec_occupants(log@, key@, excl@).contains(u@));
                    }
                    push_unique_string(&mut r, u);
                }
            },
            _ => {},
        }
        i = i + 1;
    }
    proof {
        assert forall|uid: Seq<char>|
            spec_occupants(log@, key@, excl@).contains(uid) && !cfg.spec_drops_id(
                uid,
            ) implies in_str_views(r@, uid) by {
            let ii = choose|ii: int|
                0 <= ii < log@.len() && (#[trigger] log@[ii]).user_id == Some(uid) && row_is_at(
                    log@[ii],
                    key@,
                );
            assert(log@[ii].user_id == Some(uid));
        }
    }
    r
}

/// The first row index below `upto` that carries the latest name binding of
/// `id`: among the rows whose identity is `id`, the first one whose
/// timestamp text is lexicographically greatest; `-1` when no row matches.
pub open spec fn latest_idx_upto(log: Seq<GamelogJoinLeaveView>, id: Seq<char>, upto: int) -> int
    decreases upto when upto >= 0
{
    if upto <= 0 {
        -1
    } else {
        let prev = latest_idx_upto(log, id, upto - 1);
        let cur = upto - 1;
        if log[cur].user_id != Some(id) {
            prev
        } else if prev == -1 {
            cur
        } else if lex_le(log[cur].created_at, log[prev].created_at) {
            prev
        } else {
            cur
        }
    }
}

/// The most recent display name bound to `id` in the log, if any row
/// carries `id`.
pub open spec fn spec_latest_name(log: Seq<GamelogJoinLeaveView>, id: Seq<char>) -> Option<
    Seq<char>,
> {
    let j = latest_idx_upto(log, id, log.len() as int);
    if j == -1 {
        None
    } else {
        Some(log[j].display_name)
    }
}

/// What `latest_idx_upto` returns: `-1` exactly when no row below `upto`
/// carries `id`; otherwise a row carrying `id` whose timestamp is maximal.
pub proof fn lemma_latest_idx(log: Seq<GamelogJoinLeaveView>, id: Seq<char>, upto: int)
    requires
        0 <= upto <= log.len(),
    ensures
        latest_idx_upto(log, id, upto) == -1 <==> forall|i: int|
            0 <= i < upto ==> (#[trigger] log[i]).user_id != Some(id),
        latest_idx_upto(log, id, upto) != -1 ==> {
            let j = latest_idx_upto(log, id, upto);
            0 <= j < upto && log[j].user_id == Some(id) && forall|i: int|
                0 <= i < upto && (#[trigger] log[i]).user_id == Some(id) ==> lex_le(
                    log[i].created_at,
                    log[j].created_at,
                )
        },
    decreases upto,
{
    if upto > 0 {
        lemma_latest_idx(log, id, upto - 1);
        let prev = latest_idx_upto(log, id, upto - 1);
        let cur = upto - 1;
        let j = latest_idx_upto(log, id, upto);
        if j != -1 {
            assert forall|i: int|
                0 <= i < upto && (#[trigger] log[i]).user_id == Some(id) implies lex_le(
                log[i].created_at,
                log[j].created_at,
            ) by {
                crate::text::lemma_lex_le_total(log[i].created_at, log[j].created_at);
                if i < upto - 1 && prev != -1 {
                    crate::text::lemma_lex_le_total(log[cur].created_at, log[prev].created_at);
                    crate::text::lemma_lex_le_transitive(
                        log[i].created_at,
                        log[prev].created_at,
                        log[j].created_at,
                    );
                }
            }
        }
    }
}

/// Whether every cached binding agrees with the log: each cached identity
/// maps to its most recent display name.
pub open spec fn cache_consistent(m: Map<Seq<char>, String>, log: Seq<GamelogJoinLeaveView>) -> bool {
    forall|k: Seq<char>| #[trigger] m.contains_key(k) ==> spec_latest_name(log, k) == Some(m[k]@)
}

/// Resolve an identity to its most recent display name through the cache.
///
/// A hit answers from the cache and leaves it unchanged; a miss scans the
/// log once, stores the name, and returns it. `Err(Error::MissingName)`
/// exactly when no row carries the identity: every identity that reaches
/// resolution must have at least one presence row.
pub fn get_display_name_for(user_id: &Id, log: &PresenceLog, cache: &mut ArcStrMap<String>) -> (r:
    Result<Name, Error>)
    requires
        old(cache).wf(),
        cache_consistent(old(cache)@, log@),
    ensures
        final(cache).wf(),
        cache_consistent(final(cache)@, log@),
        match r {
            Ok(name) => spec_latest_name(log@, user_id@) == Some(name@)
                && final(cache)@.contains_key(user_id@) && final(cache)@[user_id@]@ == name@
                && final(cache)@ =~= old(cache)@.insert(user_id@, final(cache)@[user_id@]),
            Err(e) => e == Error::MissingName && spec_latest_name(log@, user_id@) is None
                && final(cache)@ == old(cache)@,
        },
        old(cache)@.contains_key(user_id@) ==> final(cache)@ == old(cache)@,
{
    match cache.get(&user_id.0) {
        Some(name) => {
            let r = Name(name.clone());
            proof {
                assert(old(cache)@.insert(user_id@, old(cache)@[user_id@]) =~= old(cache)@);
            }
            Ok(r)
        },
        None => {
            let n = log.rows.len();
            let mut best: usize = 0;
            let mut found = false;
            let mut i: usize = 0;
            while i < n
                invariant
                    n == log@.len(),
                    n == log.rows@.len(),
                    i <= n,
                    found ==> best == latest_idx_upto(log@, user_id@, i as int) && best < n,
                    !found ==> latest_idx_upto(log@, user_id@, i as int) == -1,
                decreases n - i,
            {
                let row = &log.rows[i];
                let matches_user = match &row.user_id {
                    Some(u) => *u == user_id.0,
                    None => false,
                };
                if matches_user {
                    if !found {
                        found = true;
                        best = i;
                    } else {
                        let better = !str_lex_le(
                            log.rows[i].created_at.as_str(),
                            log.rows[best].created_at.as_str(),
                        );
                        if better {
                            best = i;
                        }
                    }
                }
                i = i + 1;
            }
            if !found {
                return Err(Error::MissingName);
            }
            let name = log.rows[best].display_name.clone();
            cache.insert(user_id.to_string(), name.clone());
            proof {
                assert forall|k: Seq<char>| #[trigger] final(cache)@.contains_key(k)
                    implies spec_latest_name(log@, k) == Some(final(cache)@[k]@) by {
                    if k != user_id@ {
                        assert(old(cache)@.contains_key(k));
                        assert(final(cache)@[k] == old(cache)@[k]);
                    }
                }
            }
            Ok(Name(name))
        },
    }
}

/// The first row index below `upto` that binds the display name to a
/// non-blank identity, `-1` when there is none.
pub open spec fn uuid_idx_upto(log: Seq<GamelogJoinLeaveView>, name: Seq<char>, upto: int) -> int
    decreases upto when upto >= 0
{
    if upto <= 0 {
        -1
    } else {
        let prev = uuid_idx_upto(log, name, upto - 1);
        if prev != -1 {
            prev
        } else {
            let cur = upto - 1;
            if log[cur].display_name == name && (match log[cur].user_id {
                Some(u) => u.len() > 0,
                None => false,
            }) {
                cur
            } else {
                -1
            }
        }
    }
}

/// The identity the display name is first bound to in the log, if any row
/// binds it.
pub open spec fn spec_uuid_of(log: Seq<GamelogJoinLeaveView>, name: Seq<char>) -> Option<
    Seq<char>,
> {
    let j = uuid_idx_upto(log, name, log.len() as int);
    if j == -1 {
        None
    } else {
        match log[j].user_id {
            Some(u) => Some(u),
            None => None,
        }
    }
}

/// Look up the identity behind a display name: the first row carrying the
/// name with a non-blank identity. `Err(Error::MissingName)` exactly when
/// no row does.
pub fn get_uuid_of(display_name: &Name, log: &PresenceLog) -> (r: Result<Id, Error>)
    ensures
        match r {
            Ok(id) => spec_uuid_of(log@, display_name@) == Some(id@),
            Err(e) => e == Error::MissingName && spec_uuid_of(log@, display_name@) is None,
        },
{
    let n = log.rows.len();
    let mut i: usize = 0;
    while i < n
        invariant
            n == log@.len(),
            n == log.rows@.len(),
            i <= n,
            uuid_idx_upto(log@, display_name@, i as int) == -1,
        decreases n - i,
    {
        let row = &log.rows[i];
        let name_matches = row.display_name == display_name.0;
        if name_matches {
            match &row.user_id {
                Some(u) => {
                    if !u.as_str().is_empty() {
                        let r = Id(u.clone());
                        proof {
                            lemma_uuid_idx_stable(log@, display_name@, i as int + 1, log@.len() as int);
                        }
                        return Ok(r);
                    }
                },
                None => {},
            }
        }
        i = i + 1;
    }
    Err(Error::MissingName)
}

/// Once a match is found at `at - 1`, every longer scan returns it.
proof fn lemma_uuid_idx_stable(log: Seq<GamelogJoinLeaveView>, name: Seq<char>, at: int, upto: int)
    requires
        0 < at <= upto <= log.len(),
        uuid_idx_upto(log, name, at) != -1,
    ensures
        uuid_idx_upto(log, name, upto) == uuid_idx_upto(log, name, at),
    decreases upto - at,
{
    if at < upto {
        lemma_uuid_idx_stable(log, name, at + 1, upto);
    }
}

/// Resolution is idempotent: once the cache binds an identity (as a first
/// successful resolution leaves it), the binding already is the log's most
/// recent name, so by the contract of [`get_display_name_for`] a repeated
/// call takes the cache-hit path: it returns the same name, leaves the
/// cache unchanged, and scans no row.
pub proof fn lemma_resolve_idempotent(
    m: Map<Seq<char>, String>,
    log: Seq<GamelogJoinLeaveView>,
    id: Seq<char>,
)
    requires
        cache_consistent(m, log),
        m.contains_key(id),
    ensures
        spec_latest_name(log, id) == Some(m[id]@),
{
}

} // verus!
