//! The freshness cache.
//!
//! One cache instance owns the in-memory snapshot of the master list.  It
//! starts empty and is only ever replaced whole: a successful refresh
//! stores a complete new record list, a failed one changes nothing, so the
//! cache never falls back to empty once populated.  The cache itself does
//! no network work; the caller fetches and decodes, and asks the cache two
//! questions first: whether an upstream token makes a full fetch worthwhile
//! (conditional refresh), and whether a read-triggered refresh is allowed
//! yet (debounced pull with a fixed cooldown window).

use vstd::prelude::*;
use crate::list::{Server, SpecServer};

verus! {

/// Copies an optional text field.
fn clone_opt_string(o: &Option<String>) -> (r: Option<String>)
    ensures
        r.deep_view() == o.deep_view(),
{
    match o {
        Some(s) => Some(s.clone()),
        None => None,
    }
}

/// Copies a list of text fields.
fn clone_string_vec(v: &Vec<String>) -> (r: Vec<String>)
    ensures
        r.deep_view() == v.deep_view(),
{
    let mut out: Vec<String> = Vec::new();
    let mut i: usize = 0;
    while i < v.len()
        invariant
            i <= v@.len(),
            out.deep_view() =~= v.deep_view().take(i as int),
        decreases v@.len() - i,
    {
        let ghost prev = out.deep_view();
        let c = v[i].clone();
        out.push(c);
        proof {
            assert(c@ == v@[i as int]@);
            assert(out.deep_view() =~= prev.push(c@));
            assert(out.deep_view() =~= v.deep_view().take(i + 1));
        }
        i += 1;
    }
    proof {
        assert(v.deep_view().take(v.deep_view().len() as int) =~= v.deep_view());
    }
    out
}

/// Copies a list of byte pairs.
fn clone_pair_vec(v: &Vec<(u8, u8)>) -> (r: Vec<(u8, u8)>)
    ensures
        r@ == v@,
{
    let mut out: Vec<(u8, u8)> = Vec::new();
    let mut i: usize = 0;
    while i < v.len()
        invariant
            i <= v@.len(),
            out@ =~= v@.take(i as int),
        decreases v@.len() - i,
    {
        out.push(v[i]);
        proof {
            assert(out@ =~= v@.take(i + 1));
        }
        i += 1;
    }
    proof {
        assert(v@.take(v@.len() as int) =~= v@);
    }
    out
}

/// Copies one record.
fn clone_record(s: &Server) -> (r: Server)
    ensures
        r@ == s@,
{
    let r = Server {
        address: s.address.clone(),
        port: s.port,
        players: s.players,
        max_players: s.max_players,
        game_name: clone_opt_string(&s.game_name),
        server_name: clone_opt_string(&s.server_name),
        game_mode: clone_opt_string(&s.game_mode),
        map_name: clone_opt_string(&s.map_name),
        version: clone_opt_string(&s.version),
        passworded: s.passworded,
        serials_enabled: s.serials_enabled,
        player_list: match &s.player_list {
            Some(v) => Some(clone_string_vec(v)),
            None => None,
        },
        responding: s.responding,
        restriction_flags: s.restriction_flags,
        search_ignore_ranges: match &s.search_ignore_ranges {
            Some(v) => Some(clone_pair_vec(v)),
            None => None,
        },
        keep_alive: s.keep_alive,
        http_port: s.http_port,
        special_flags: s.special_flags,
    };
    proof {
        assert(r@ =~= s@);
    }
    r
}

/// Copies a record list.
fn clone_records(v: &Vec<Server>) -> (r: Vec<Server>)
    ensures
        r.deep_view() == v.deep_view(),
{
    let mut out: Vec<Server> = Vec::new();
    let mut i: usize = 0;
    while i < v.len()
        invariant
            i <= v@.len(),
            out.deep_view() =~= v.deep_view().take(i as int),
        decreases v@.len() - i,
    {
        let ghost prev = out.deep_view();
        let c = clone_record(&v[i]);
        out.push(c);
        proof {
            assert(c@ == v@[i as int]@);
            assert(out.deep_view() =~= prev.push(c@));
            assert(out.deep_view() =~= v.deep_view().take(i + 1));
        }
        i += 1;
    }
    proof {
        assert(v.deep_view().take(v.deep_view().len() as int) =~= v.deep_view());
    }
    out
}

/// Whether a full fetch is due, given the token of the last successful
/// fetch and the token the upstream reports now.  No token from upstream
/// means nothing to compare against, so no fetch; an upstream token fetches
/// exactly when it differs from the recorded one, or when none was ever
/// recorded.
pub open spec fn spec_should_fetch(prev: Option<Seq<char>>, header: Option<Seq<char>>) -> bool {
    match header {
        None => false,
        Some(h) => match prev {
            None => true,
            Some(p) => p != h,
        },
    }
}

/// Whether a read-triggered refresh is allowed at time `now`, after a
/// refresh at `last` with the given cooldown window: always before any
/// refresh happened, and again once the window has elapsed.
pub open spec fn spec_may_refresh(last: Option<u64>, cooldown: u64, now: u64) -> bool {
    match last {
        None => true,
        Some(t) => now >= t + cooldown,
    }
}

/// The in-memory snapshot of the master list and the bookkeeping of the
/// refresh strategies.
pub struct Cache {
    /// The current record list.  Replaced whole, never edited.
    pub snapshot: Vec<Server>,
    /// Whether any refresh has ever succeeded.
    pub populated: bool,
    /// The upstream modification token of the last successful fetch.
    pub last_modified: Option<String>,
    /// When the last read-triggered refresh ran.
    pub last_refresh_at: Option<u64>,
    /// The debounce window: no read-triggered refresh for this long after
    /// the previous one.
    pub cooldown: u64,
}

impl Cache {
    /// An empty cache: no records, no token, no refresh yet.
    pub fn new(cooldown: u64) -> (r: Cache)
        ensures
            r.snapshot.deep_view() == Seq::<SpecServer>::empty(),
            !r.populated,
            r.last_modified is None,
            r.last_refresh_at is None,
            r.cooldown == cooldown,
    {
        let r = Cache {
            snapshot: Vec::new(),
            populated: false,
            last_modified: None,
            last_refresh_at: None,
            cooldown,
        };
        proof {
            assert(r.snapshot.deep_view() =~= Seq::<SpecServer>::empty());
        }
        r
    }

    /// The current snapshot, as a copy: readers never hold an alias into
    /// the live list.  Possibly empty when nothing was ever fetched.
    pub fn get(&self) -> (r: Vec<Server>)
        ensures
            r.deep_view() == self.snapshot.deep_view(),
    {
        clone_records(&self.snapshot)
    }

    /// Replaces the snapshot whole after a successful fetch, and records
    /// the upstream token that fetch saw.  A populated cache stays
    /// populated; a failed refresh simply never calls this.
    pub fn store(&mut self, servers: Vec<Server>, token: Option<String>)
        ensures
            final(self).snapshot == servers,
            final(self).populated,
            final(self).last_modified == token,
            final(self).last_refresh_at == old(self).last_refresh_at,
            final(self).cooldown == old(self).cooldown,
    {
        self.snapshot = servers;
        self.populated = true;
        self.last_modified = token;
    }

    /// Whether the conditional strategy should run a full fetch, given the
    /// modification token the upstream reports now.
    pub fn should_fetch(&self, header: &Option<String>) -> (r: bool)
        ensures
            r == spec_should_fetch(self.last_modified.deep_view(), header.deep_view()),
    {
        match header {
            None => false,
            Some(h) => match &self.last_modified {
                None => true,
                Some(p) => !(*p == *h),
            },
        }
    }

    /// Whether a read-triggered refresh is allowed at time `now`.
    pub fn may_refresh(&self, now: u64) -> (r: bool)
        ensures
            r == spec_may_refresh(self.last_refresh_at, self.cooldown, now),
    {
        match self.last_refresh_at {
            None => true,
            Some(t) => now >= t && now - t >= self.cooldown,
        }
    }

    /// Records that a read-triggered refresh ran at time `now`, closing
    /// the cooldown window until `now + cooldown`.
    pub fn note_refresh(&mut self, now: u64)
        ensures
            final(self).last_refresh_at == Some(now),
            final(self).snapshot == old(self).snapshot,
            final(self).populated == old(self).populated,
            final(self).last_modified == old(self).last_modified,
            final(self).cooldown == old(self).cooldown,
    {
        self.last_refresh_at = Some(now);
    }
}

/// Conditional refresh never fetches twice for one token: once a fetch
/// has recorded token `tok`, a cycle that sees `tok` again skips the full
/// fetch; a cycle that sees a different token fetches, and after it
/// records that token, seeing it again skips once more — one full fetch
/// per token change.
pub proof fn lemma_conditional_refresh(tok: Seq<char>, tok2: Seq<char>)
    ensures
        !spec_should_fetch(Some(tok), Some(tok)),
        tok2 != tok ==> spec_should_fetch(Some(tok), Some(tok2)),
        !spec_should_fetch(Some(tok2), Some(tok2)),
        !spec_should_fetch(Some(tok), None),
{
}

/// Debounced pull coalesces reads: after a refresh at time `t`, any read
/// before the cooldown window has elapsed is not allowed to refresh — it
/// returns the cached snapshot as is — and any read at or after
/// `t + cooldown` is allowed again.
pub proof fn lemma_debounce(t: u64, cooldown: u64, now: u64)
    ensures
        now < t + cooldown ==> !spec_may_refresh(Some(t), cooldown, now),
        now >= t + cooldown ==> spec_may_refresh(Some(t), cooldown, now),
{
}

} // verus!
