//! The renderer's tile bookkeeping: which tiles are loaded (with what
//! the renderer keeps for each, such as its GPU texture), which have a
//! fetch in flight, and which failed and are not asked for again.
//!
//! Each frame the renderer hands over the visible tiles and gets back
//! the fetches to start; it reports every completion, and asks in what
//! order to draw the loaded tiles.
use vstd::prelude::*;
use crate::tile::{parent_of, parent_prefetch, DecodedTile, TileId};

verus! {

/// What a `TileCache` holds.
pub struct TileCacheView<T> {
    /// The loaded tiles and their payloads.
    pub loaded: Map<TileId, T>,
    /// The tiles with a fetch in flight.
    pub requested: Set<TileId>,
    /// The tiles whose fetch failed.
    pub failed: Set<TileId>,
}

impl<T> TileCacheView<T> {
    /// Whether the cache already knows `id`: loaded, in flight or failed.
    pub open spec fn known(self, id: TileId) -> bool {
        self.loaded.dom().contains(id) || self.requested.contains(id) || self.failed.contains(id)
    }
}

/// The tiles wanted for a frame: the visible ones and, when the first
/// visible tile is above zoom 0, the parent of each of them.
pub open spec fn wanted(visible: Seq<TileId>) -> Set<TileId> {
    Set::new(
        |t: TileId|
            visible.contains(t) || (visible.len() > 0 && visible[0].z > 0 && exists|i: int|
                0 <= i < visible.len() && parent_of(#[trigger] visible[i]) == t),
    )
}

/// The fetches to start for a frame: the wanted tiles that the cache
/// does not know yet.
pub open spec fn new_requests<T>(c: TileCacheView<T>, visible: Seq<TileId>) -> Set<TileId> {
    Set::new(|t: TileId| wanted(visible).contains(t) && !c.known(t))
}

/// Whether the keys of `s` are distinct.
pub open spec fn keys_unique<T>(s: Seq<(TileId, T)>) -> bool {
    forall|i: int, j: int|
        0 <= i < s.len() && 0 <= j < s.len() && #[trigger] s[i].0 == #[trigger] s[j].0 ==> i == j
}

/// Whether some entry of `s` has key `k`.
pub open spec fn has_key<T>(s: Seq<(TileId, T)>, k: TileId) -> bool {
    exists|i: int| 0 <= i < s.len() && (#[trigger] s[i]).0 == k
}

/// The map that a list of entries with distinct keys stands for.
pub open spec fn entries_map<T>(s: Seq<(TileId, T)>) -> Map<TileId, T> {
    Map::new(
        |k: TileId| has_key(s, k),
        |k: TileId| s[choose|i: int| 0 <= i < s.len() && (#[trigger] s[i]).0 == k].1,
    )
}

/// Loaded, in-flight and failed tiles.
pub struct TileCache<T> {
    loaded: Vec<(TileId, T)>,
    requested: Vec<TileId>,
    failed: Vec<TileId>,
}

impl<T> View for TileCache<T> {
    type V = TileCacheView<T>;

    closed spec fn view(&self) -> TileCacheView<T> {
        TileCacheView {
            loaded: entries_map(self.loaded@),
            requested: self.requested@.to_set(),
            failed: self.failed@.to_set(),
        }
    }
}

proof fn lemma_entry_value<T>(s: Seq<(TileId, T)>, i: int)
    requires
        keys_unique(s),
        0 <= i < s.len(),
    ensures
        entries_map(s).dom().contains(s[i].0),
        entries_map(s)[s[i].0] == s[i].1,
{
    let k = s[i].0;
    assert(has_key(s, k));
    let j = choose|j: int| 0 <= j < s.len() && (#[trigger] s[j]).0 == k;
    assert(s[j].0 == s[i].0);
}

proof fn lemma_push_set<A>(s: Seq<A>, x: A)
    ensures
        forall|y: A| #[trigger] s.push(x).contains(y) == (s.contains(y) || y == x),
        s.push(x).to_set() == s.to_set().insert(x),
{
    assert forall|y: A| #[trigger] s.push(x).contains(y) == (s.contains(y) || y == x) by {
        if s.contains(y) {
            let k = choose|k: int| 0 <= k < s.len() && s[k] == y;
            assert(s.push(x)[k] == y);
        }
        if y == x {
            assert(s.push(x)[s.len() as int] == x);
        }
        if s.push(x).contains(y) {
            let k = choose|k: int| 0 <= k < s.push(x).len() && s.push(x)[k] == y;
            if k < s.len() {
                assert(s[k] == y);
            }
        }
    }
    assert forall|y: A| #[trigger] s.push(x).to_set().contains(y) == s.to_set().insert(x).contains(
        y,
    ) by {}
    assert(s.push(x).to_set() =~= s.to_set().insert(x));
}

proof fn lemma_remove_set<A>(s: Seq<A>, i: int)
    requires
        s.no_duplicates(),
        0 <= i < s.len(),
    ensures
        s.remove(i).no_duplicates(),
        s.remove(i).to_set() == s.to_set().remove(s[i]),
{
    let r = s.remove(i);
    assert forall|a: int| 0 <= a < r.len() implies #[trigger] r[a] == (if a < i {
        s[a]
    } else {
        s[a + 1]
    }) by {}
    assert forall|y: A| r.contains(y) <==> s.contains(y) && y != s[i] by {
        if r.contains(y) {
            let k = choose|k: int| 0 <= k < r.len() && r[k] == y;
            if k < i {
                assert(s[k] == y);
            } else {
                assert(s[k + 1] == y);
            }
        }
        if s.contains(y) && y != s[i] {
            let k = choose|k: int| 0 <= k < s.len() && s[k] == y;
            if k < i {
                assert(r[k] == y);
            } else {
                assert(r[k - 1] == y);
            }
        }
    }
    assert(r.to_set() =~= s.to_set().remove(s[i]));
}

fn index_in(v: &Vec<TileId>, id: TileId) -> (r: Option<usize>)
    ensures
        (match r {
            Some(i) => i < v@.len() && v@[i as int] == id,
            None => !v@.contains(id),
        }),
{
    let mut i: usize = 0;
    while i < v.len()
        invariant
            i <= v@.len(),
            forall|k: int| 0 <= k < i ==> v@[k] != id,
        decreases v@.len() - i,
    {
        if v[i] == id {
            return Some(i);
        }
        i = i + 1;
    }
    None
}

impl<T> TileCache<T> {
    /// The cache's invariant: no tile is listed twice.
    pub closed spec fn wf(&self) -> bool {
        &&& keys_unique(self.loaded@)
        &&& self.requested@.no_duplicates()
        &&& self.failed@.no_duplicates()
    }

    /// An empty cache.
    pub fn new() -> (c: Self)
        ensures
            c@.loaded == Map::<TileId, T>::empty(),
            c@.requested == Set::<TileId>::empty(),
            c@.failed == Set::<TileId>::empty(),
            c.wf(),
    {
        let c = TileCache { loaded: Vec::new(), requested: Vec::new(), failed: Vec::new() };
        proof {
            assert(c@.loaded =~= Map::<TileId, T>::empty());
            assert(c@.requested =~= Set::<TileId>::empty());
            assert(c@.failed =~= Set::<TileId>::empty());
        }
        c
    }

    fn loaded_index(&self, id: TileId) -> (r: Option<usize>)
        requires
            self.wf(),
        ensures
            (match r {
                Some(i) => i < self.loaded@.len() && self.loaded@[i as int].0 == id,
                None => !self@.loaded.dom().contains(id),
            }),
    {
        let mut i: usize = 0;
        while i < self.loaded.len()
            invariant
                i <= self.loaded@.len(),
                forall|k: int| 0 <= k < i ==> self.loaded@[k].0 != id,
            decreases self.loaded@.len() - i,
        {
            if self.loaded[i].0 == id {
                return Some(i);
            }
            i = i + 1;
        }
        None
    }

    /// The payload kept for `id`, if it is loaded.
    pub fn get(&self, id: TileId) -> (r: Option<&T>)
        requires
            self.wf(),
        ensures
            (match r {
                Some(p) => self@.loaded.dom().contains(id) && *p == self@.loaded[id],
                None => !self@.loaded.dom().contains(id),
            }),
    {
        match self.loaded_index(id) {
            Some(i) => {
                proof {
                    lemma_entry_value(self.loaded@, i as int);
                }
                Some(&self.loaded[i].1)
            },
            None => None,
        }
    }

    /// Whether the cache knows `id` already: loaded, in flight or failed.
    pub fn knows(&self, id: TileId) -> (b: bool)
        requires
            self.wf(),
        ensures
            b == self@.known(id),
    {
        self.loaded_index(id).is_some() || index_in(&self.requested, id).is_some() || index_in(
            &self.failed,
            id,
        ).is_some()
    }

    /// Marks `id` as in flight unless the cache knows it already;
    /// `true` when a fetch for it is to be started.
    pub fn request_if_new(&mut self, id: TileId) -> (fetch: bool)
        requires
            old(self).wf(),
        ensures
            final(self).wf(),
            fetch == !old(self)@.known(id),
            final(self)@.loaded == old(self)@.loaded,
            final(self)@.failed == old(self)@.failed,
            final(self)@.requested == (if fetch {
                old(self)@.requested.insert(id)
            } else {
                old(self)@.requested
            }),
    {
        if self.knows(id) {
            return false;
        }
        proof {
            lemma_push_set(self.requested@, id);
        }
        self.requested.push(id);
        true
    }

    /// Marks every wanted tile of a frame that the cache does not know
    /// as in flight: the visible tiles and, when the first one is above
    /// zoom 0, their parents. Gives the fetches to start, each once.
    pub fn ensure_visible_tiles(&mut self, visible: &[TileId]) -> (fetches: Vec<TileId>)
        requires
            old(self).wf(),
            visible@.len() > 0 && visible@[0].z > 0 ==> forall|i: int|
                0 <= i < visible@.len() ==> #[trigger] visible@[i].z > 0,
        ensures
            final(self).wf(),
            fetches@.no_duplicates(),
            fetches@.to_set() == new_requests(old(self)@, visible@),
            final(self)@.loaded == old(self)@.loaded,
            final(self)@.failed == old(self)@.failed,
            final(self)@.requested == old(self)@.requested.union(
                new_requests(old(self)@, visible@),
            ),
    {
        let ghost start = self@;
        let mut fetches: Vec<TileId> = Vec::new();
        let mut i: usize = 0;
        while i < visible.len()
            invariant
                i <= visible@.len(),
                self.wf(),
                self@.loaded == start.loaded,
                self@.failed == start.failed,
                fetches@.no_duplicates(),
                forall|t: TileId|
                    #[trigger] fetches@.contains(t) <==> visible@.subrange(0, i as int).contains(t)
                        && !start.known(t),
                self@.requested == start.requested.union(fetches@.to_set()),
            decreases visible@.len() - i,
        {
            let id = visible[i];
            proof {
                assert(visible@.subrange(0, i + 1) =~= visible@.subrange(0, i as int).push(id));
                lemma_push_set(visible@.subrange(0, i as int), id);
                lemma_push_set(fetches@, id);
            }
            if self.request_if_new(id) {
                proof {
                    assert forall|k: int| 0 <= k < fetches@.len() implies fetches@[k] != id by {
                        assert(fetches@.contains(fetches@[k]));
                    }
                }
                fetches.push(id);
            }
            proof {
                assert forall|t: TileId|
                    #[trigger] fetches@.contains(t) <==> visible@.subrange(0, i + 1).contains(t)
                        && !start.known(t) by {
                    assert(visible@.subrange(0, i + 1).to_set().contains(t)
                        == visible@.subrange(0, i + 1).contains(t));
                    assert(fetches@.to_set().contains(t) == fetches@.contains(t));
                }
                assert(self@.requested =~= start.requested.union(fetches@.to_set()));
            }
            i = i + 1;
        }
        let parents = parent_prefetch(visible);
        proof {
            assert(visible@.subrange(0, visible@.len() as int) =~= visible@);
            assert(parents@.subrange(0, 0) =~= Seq::<TileId>::empty());
        }
        let mut j: usize = 0;
        while j < parents.len()
            invariant
                j <= parents@.len(),
                self.wf(),
                visible@.subrange(0, visible@.len() as int) == visible@,
                self@.loaded == start.loaded,
                self@.failed == start.failed,
                fetches@.no_duplicates(),
                forall|t: TileId|
                    #[trigger] fetches@.contains(t) <==> (visible@.contains(t) || parents@.subrange(
                        0,
                        j as int,
                    ).contains(t)) && !start.known(t),
                self@.requested == start.requested.union(fetches@.to_set()),
            decreases parents@.len() - j,
        {
            let id = parents[j];
            proof {
                assert(parents@.subrange(0, j + 1) =~= parents@.subrange(0, j as int).push(id));
                lemma_push_set(parents@.subrange(0, j as int), id);
                lemma_push_set(fetches@, id);
            }
            if self.request_if_new(id) {
                proof {
                    assert forall|k: int| 0 <= k < fetches@.len() implies fetches@[k] != id by {
                        assert(fetches@.contains(fetches@[k]));
                    }
                }
                fetches.push(id);
            }
            proof {
                assert forall|t: TileId|
                    #[trigger] fetches@.contains(t) <==> (visible@.contains(t) || parents@.subrange(
                        0,
                        j + 1,
                    ).contains(t)) && !start.known(t) by {
                    assert(parents@.subrange(0, j + 1).to_set().contains(t)
                        == parents@.subrange(0, j + 1).contains(t));
                    assert(fetches@.to_set().contains(t) == fetches@.contains(t));
                }
                assert(self@.requested =~= start.requested.union(fetches@.to_set()));
            }
            j = j + 1;
        }
        proof {
            assert(parents@.subrange(0, parents@.len() as int) =~= parents@);
            assert forall|t: TileId|
                fetches@.to_set().contains(t) <==> new_requests(start, visible@).contains(t) by {
                if visible@.len() > 0 && visible@[0].z > 0 {
                    assert(parents@.contains(t) <==> exists|i: int|
                        0 <= i < visible@.len() && parent_of(#[trigger] visible@[i]) == t);
                } else {
                    assert(!parents@.contains(t));
                }
            }
            assert(fetches@.to_set() =~= new_requests(start, visible@));
        }
        fetches
    }

    /// Records that the fetch of `id` succeeded: it is loaded with
    /// `payload` (replacing any earlier payload) and no longer in flight.
    pub fn tile_loaded(&mut self, id: TileId, payload: T)
        requires
            old(self).wf(),
        ensures
            final(self).wf(),
            final(self)@.loaded == old(self)@.loaded.insert(id, payload),
            final(self)@.requested == old(self)@.requested.remove(id),
            final(self)@.failed == old(self)@.failed,
    {
        let ghost before = self@;
        match index_in(&self.requested, id) {
            Some(i) => {
                proof {
                    lemma_remove_set(self.requested@, i as int);
                }
                self.requested.remove(i);
            },
            None => {
                proof {
                    assert(self.requested@.to_set() =~= self.requested@.to_set().remove(id));
                }
            },
        }
        let ghost old_entries = self.loaded@;
        match self.loaded_index(id) {
            Some(i) => {
                self.loaded.set(i, (id, payload));
                proof {
                    let s = self.loaded@;
                    assert forall|a: int, b: int|
                        0 <= a < s.len() && 0 <= b < s.len() && #[trigger] s[a].0
                            == #[trigger] s[b].0 implies a == b by {
                        assert(old_entries[a].0 == s[a].0);
                        assert(old_entries[b].0 == s[b].0);
                    }
                    assert forall|k: TileId| #[trigger] has_key(s, k) == has_key(old_entries, k) by {
                        if has_key(s, k) {
                            let a = choose|a: int| 0 <= a < s.len() && (#[trigger] s[a]).0 == k;
                            assert(old_entries[a].0 == k);
                        }
                        if has_key(old_entries, k) {
                            let a = choose|a: int|
                                0 <= a < old_entries.len() && (#[trigger] old_entries[a]).0 == k;
                            assert(s[a].0 == k);
                        }
                    }
                    assert forall|k: TileId| #[trigger]
                        entries_map(s).dom().contains(k) implies entries_map(s)[k] == (if k == id {
                        payload
                    } else {
                        entries_map(old_entries)[k]
                    }) by {
                        let a = choose|a: int| 0 <= a < s.len() && (#[trigger] s[a]).0 == k;
                        lemma_entry_value(s, a);
                        lemma_entry_value(old_entries, a);
                    }
                    assert(entries_map(s) =~= entries_map(old_entries).insert(id, payload));
                }
            },
            None => {
                self.loaded.push((id, payload));
                proof {
                    let s = self.loaded@;
                    assert(s =~= old_entries.push((id, payload)));
                    assert forall|a: int, b: int|
                        0 <= a < s.len() && 0 <= b < s.len() && #[trigger] s[a].0
                            == #[trigger] s[b].0 implies a == b by {
                        if a < old_entries.len() && b < old_entries.len() {
                            assert(old_entries[a].0 == s[a].0);
                            assert(old_entries[b].0 == s[b].0);
                        } else if a < old_entries.len() {
                            assert(has_key(old_entries, id));
                        } else if b < old_entries.len() {
                            assert(has_key(old_entries, id));
                        }
                    }
                    assert forall|k: TileId| #[trigger]
                        has_key(s, k) == (has_key(old_entries, k) || k == id) by {
                        if has_key(s, k) {
                            let a = choose|a: int| 0 <= a < s.len() && (#[trigger] s[a]).0 == k;
                            if a < old_entries.len() {
                                assert(old_entries[a].0 == k);
                            }
                        }
                        if has_key(old_entries, k) {
                            let a = choose|a: int|
                                0 <= a < old_entries.len() && (#[trigger] old_entries[a]).0 == k;
                            assert(s[a].0 == k);
                        }
                        if k == id {
                            assert(s[old_entries.len() as int].0 == k);
                        }
                    }
                    assert forall|k: TileId| #[trigger]
                        entries_map(s).dom().contains(k) implies entries_map(s)[k] == (if k == id {
                        payload
                    } else {
                        entries_map(old_entries)[k]
                    }) by {
                        let a = choose|a: int| 0 <= a < s.len() && (#[trigger] s[a]).0 == k;
                        lemma_entry_value(s, a);
                        if a < old_entries.len() {
                            assert(old_entries[a] == s[a]);
                            lemma_entry_value(old_entries, a);
                        }
                    }
                    assert(entries_map(s) =~= entries_map(old_entries).insert(id, payload));
                }
            },
        }
    }

    /// Records that the fetch of `id` failed: it is no longer in flight
    /// and is not asked for again.
    pub fn tile_failed(&mut self, id: TileId)
        requires
            old(self).wf(),
        ensures
            final(self).wf(),
            final(self)@.loaded == old(self)@.loaded,
            final(self)@.requested == old(self)@.requested.remove(id),
            final(self)@.failed == old(self)@.failed.insert(id),
    {
        match index_in(&self.requested, id) {
            Some(i) => {
                proof {
                    lemma_remove_set(self.requested@, i as int);
                }
                self.requested.remove(i);
            },
            None => {
                proof {
                    assert(self.requested@.to_set() =~= self.requested@.to_set().remove(id));
                }
            },
        }
        match index_in(&self.failed, id) {
            Some(_) => {
                proof {
                    assert(self.failed@.to_set() =~= self.failed@.to_set().insert(id));
                }
            },
            None => {
                proof {
                    lemma_push_set(self.failed@, id);
                }
                self.failed.push(id);
            },
        }
    }

    /// The loaded tiles no deeper than zoom `current_z`, coarsest first,
    /// so that finer tiles are drawn over their parents; deeper tiles
    /// stay loaded but are not drawn.
    pub fn draw_list(&self, current_z: u8) -> (ids: Vec<TileId>)
        requires
            self.wf(),
        ensures
            ids@.no_duplicates(),
            forall|t: TileId|
                #[trigger] ids@.contains(t) <==> self@.loaded.dom().contains(t) && t.z
                    <= current_z,
            forall|a: int, b: int| 0 <= a < b < ids@.len() ==> ids@[a].z <= ids@[b].z,
    {
        let mut ids: Vec<TileId> = Vec::new();
        let mut z: u16 = 0;
        while z <= current_z as u16
            invariant
                z <= current_z as u16 + 1,
                keys_unique(self.loaded@),
                ids@.no_duplicates(),
                forall|t: TileId|
                    #[trigger] ids@.contains(t) <==> has_key(self.loaded@, t) && t.z < z,
                forall|a: int, b: int| 0 <= a < b < ids@.len() ==> ids@[a].z <= ids@[b].z,
                forall|a: int| 0 <= a < ids@.len() ==> ids@[a].z < z,
            decreases current_z as u16 + 1 - z,
        {
            let mut k: usize = 0;
            while k < self.loaded.len()
                invariant
                    z <= current_z as u16,
                    k <= self.loaded@.len(),
                    keys_unique(self.loaded@),
                    ids@.no_duplicates(),
                    forall|t: TileId|
                        #[trigger] ids@.contains(t) <==> has_key(self.loaded@, t) && (t.z < z || (
                        t.z == z && exists|m: int| 0 <= m < k && (#[trigger] self.loaded@[m]).0 == t)),
                    forall|a: int, b: int| 0 <= a < b < ids@.len() ==> ids@[a].z <= ids@[b].z,
                    forall|a: int| 0 <= a < ids@.len() ==> ids@[a].z <= z,
                decreases self.loaded@.len() - k,
            {
                let id = self.loaded[k].0;
                if id.z as u16 == z {
                    proof {
                        assert forall|a: int| 0 <= a < ids@.len() implies ids@[a] != id by {
                            assert(ids@.contains(ids@[a]));
                            if ids@[a] == id {
                                let m = choose|m: int|
                                    0 <= m < k && (#[trigger] self.loaded@[m]).0 == id;
                                assert(self.loaded@[m].0 == self.loaded@[k as int].0);
                            }
                        }
                    }
                    let ghost prev = ids@;
                    ids.push(id);
                    proof {
                        lemma_push_set(prev, id);
                        assert forall|t: TileId|
                            #[trigger] ids@.contains(t) <==> has_key(self.loaded@, t) && (t.z < z || (
                            t.z == z && exists|m: int|
                                0 <= m < k + 1 && (#[trigger] self.loaded@[m]).0 == t)) by {
                            if t == id {
                                assert(has_key(self.loaded@, t));
                            }
                            if has_key(self.loaded@, t) && t.z == z && t != id && (exists|m: int|
                                0 <= m < k + 1 && (#[trigger] self.loaded@[m]).0 == t) {
                                let m = choose|m: int|
                                    0 <= m < k + 1 && (#[trigger] self.loaded@[m]).0 == t;
                                assert(m < k);
                            }
                        }
                    }
                } else {
                    proof {
                        assert forall|t: TileId|
                            #[trigger] ids@.contains(t) <==> has_key(self.loaded@, t) && (t.z < z || (
                            t.z == z && exists|m: int|
                                0 <= m < k + 1 && (#[trigger] self.loaded@[m]).0 == t)) by {
                            if has_key(self.loaded@, t) && t.z == z && (exists|m: int|
                                0 <= m < k + 1 && (#[trigger] self.loaded@[m]).0 == t) {
                                let m = choose|m: int|
                                    0 <= m < k + 1 && (#[trigger] self.loaded@[m]).0 == t;
                                assert(m < k);
                            }
                        }
                    }
                }
                k = k + 1;
            }
            proof {
                assert forall|t: TileId|
                    #[trigger] ids@.contains(t) <==> has_key(self.loaded@, t) && t.z < z + 1 by {
                    if has_key(self.loaded@, t) && t.z == z {
                        let m = choose|m: int|
                            0 <= m < self.loaded@.len() && (#[trigger] self.loaded@[m]).0 == t;
                        assert(exists|m2: int|
                            0 <= m2 < k && (#[trigger] self.loaded@[m2]).0 == t);
                    }
                }
            }
            z = z + 1;
        }
        ids
    }
}

impl TileCache<DecodedTile> {
    /// Records a fetched tile's decoded pixels. The buffer holds exactly
    /// four bytes per pixel, a count that fits in `u32`; otherwise the
    /// tile could not be uploaded as a texture.
    pub fn upload_tile(&mut self, id: TileId, tile: DecodedTile)
        requires
            old(self).wf(),
            4 * tile.width * tile.height <= u32::MAX,
            tile.rgba@.len() == 4 * tile.width * tile.height,
        ensures
            final(self).wf(),
            final(self)@.loaded == old(self)@.loaded.insert(id, tile),
            final(self)@.requested == old(self)@.requested.remove(id),
            final(self)@.failed == old(self)@.failed,
    {
        self.tile_loaded(id, tile);
    }
}

/// Starting the fetches for a frame twice in a row asks for nothing
/// the second time: everything wanted is then known to the cache.
pub proof fn lemma_second_request_empty<T>(c: TileCacheView<T>, visible: Seq<TileId>)
    ensures
        new_requests(
            TileCacheView {
                loaded: c.loaded,
                requested: c.requested.union(new_requests(c, visible)),
                failed: c.failed,
            },
            visible,
        ) == Set::<TileId>::empty(),
{
    let after = TileCacheView {
        loaded: c.loaded,
        requested: c.requested.union(new_requests(c, visible)),
        failed: c.failed,
    };
    assert(new_requests(after, visible) =~= Set::<TileId>::empty());
}

/// A tile whose fetch failed is never asked for again.
pub proof fn lemma_failed_not_requested<T>(c: TileCacheView<T>, visible: Seq<TileId>, id: TileId)
    requires
        c.failed.contains(id),
    ensures
        !new_requests(c, visible).contains(id),
{
}

/// A loaded tile is never asked for again.
pub proof fn lemma_loaded_not_requested<T>(c: TileCacheView<T>, visible: Seq<TileId>, id: TileId)
    requires
        c.loaded.dom().contains(id),
    ensures
        !new_requests(c, visible).contains(id),
{
}

/// Every wanted tile is known to the cache once its fetches have been
/// started: loaded, in flight, or failed.
pub proof fn lemma_wanted_known_after<T>(c: TileCacheView<T>, visible: Seq<TileId>, id: TileId)
    requires
        wanted(visible).contains(id),
    ensures
        (TileCacheView {
            loaded: c.loaded,
            requested: c.requested.union(new_requests(c, visible)),
            failed: c.failed,
        }).known(id),
{
}

} // verus!
