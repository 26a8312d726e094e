use vstd::prelude::*;
use crate::models::{GalaxyObject, GalaxyObjectType, StarLink, StarSector, StarSectorFuture,
    StarSystem};

verus! {

/// Largest fixed-point star count (in thousandths) any operation accepts.
pub const STARS_LIMIT: u64 = 1_000_000_000;

/// Largest fixed-point radius (in thousandths) any operation accepts.
pub const RADIUS_LIMIT: u64 = 1_000_000_000_000;

/// The galaxy store: four relations plus the link relation, with serial
/// id assignment. It plays the role of the transactional row store the
/// generation logic runs against; every operation on it is all-or-nothing
/// by construction (failures are detected before anything is written).
pub struct Galaxy {
    pub objects: Vec<GalaxyObject>,
    pub sectors: Vec<StarSector>,
    pub futures: Vec<StarSectorFuture>,
    pub systems: Vec<StarSystem>,
    pub links: Vec<StarLink>,
    /// Next identity the shared id space will assign.
    pub next_id: i32,
    /// Next id the link relation will assign.
    pub next_link_id: i32,
}

/// There is an object row carrying this id with this kind tag.
pub open spec fn obj_with(objs: Seq<GalaxyObject>, id: i32, t: GalaxyObjectType) -> bool {
    exists|i: int| 0 <= i < objs.len() && objs[i].id == id && objs[i].obj_type == t
}

/// There is an object row carrying this id.
pub open spec fn obj_present(objs: Seq<GalaxyObject>, id: i32) -> bool {
    exists|i: int| 0 <= i < objs.len() && objs[i].id == id
}

/// Index of the object row carrying this id.
pub open spec fn obj_index_of(objs: Seq<GalaxyObject>, id: i32) -> int {
    choose|i: int| 0 <= i < objs.len() && objs[i].id == id
}

/// There is a sector row carrying this id.
pub open spec fn sector_present(s: Seq<StarSector>, id: i32) -> bool {
    exists|i: int| 0 <= i < s.len() && s[i].id == id
}

/// Index of the sector row carrying this id.
pub open spec fn sector_index_of(s: Seq<StarSector>, id: i32) -> int {
    choose|i: int| 0 <= i < s.len() && s[i].id == id
}

/// There is a future row carrying this id.
pub open spec fn future_present(f: Seq<StarSectorFuture>, id: i32) -> bool {
    exists|i: int| 0 <= i < f.len() && f[i].id == id
}

/// Index of the future row carrying this id.
pub open spec fn future_index_of(f: Seq<StarSectorFuture>, id: i32) -> int {
    choose|i: int| 0 <= i < f.len() && f[i].id == id
}

/// There is a system row carrying this id.
pub open spec fn system_present(y: Seq<StarSystem>, id: i32) -> bool {
    exists|i: int| 0 <= i < y.len() && y[i].id == id
}

/// The parent recorded by the sector row carrying this id, if any.
pub open spec fn parent_of(s: Seq<StarSector>, x: i32) -> Option<i32> {
    if sector_present(s, x) {
        s[sector_index_of(s, x)].parent_id
    } else {
        None
    }
}

/// Membership of `x` in the sector subtree rooted at `root`: either `x`
/// is the root itself, or its sector row's parent chain reaches the root.
/// Well-formed stores give every child a smaller parent id, which bounds
/// the chain.
pub open spec fn in_subtree(s: Seq<StarSector>, root: i32, x: i32) -> bool
    decreases x,
{
    if x == root {
        true
    } else {
        match parent_of(s, x) {
            Some(p) => 0 <= p < x && in_subtree(s, root, p),
            None => false,
        }
    }
}

/// The link has this id on one of its two sides.
pub open spec fn link_touches(l: StarLink, id: i32) -> bool {
    l.a_id == id || l.b_id == id
}

/// The link relation with every link touching this id purged.
pub open spec fn links_without(links: Seq<StarLink>, id: i32) -> Seq<StarLink> {
    links.filter(|l: StarLink| !link_touches(l, id))
}

/// Purging distributes over appending one link.
pub proof fn lemma_links_without_push(s: Seq<StarLink>, x: StarLink, id: i32)
    ensures
        links_without(s.push(x), id) == if !link_touches(x, id) {
            links_without(s, id).push(x)
        } else {
            links_without(s, id)
        },
{
    lemma_filter_push(s, x, |l: StarLink| !link_touches(l, id));
}

impl Galaxy {
    /// No two rows of one relation share an id.
    pub open spec fn ids_distinct(self) -> bool {
        &&& (forall|i: int, j: int|
            0 <= i < j < self.objects@.len() ==> self.objects@[i].id != self.objects@[j].id)
        &&& (forall|i: int, j: int|
            0 <= i < j < self.sectors@.len() ==> self.sectors@[i].id != self.sectors@[j].id)
        &&& (forall|i: int, j: int|
            0 <= i < j < self.futures@.len() ==> self.futures@[i].id != self.futures@[j].id)
        &&& (forall|i: int, j: int|
            0 <= i < j < self.systems@.len() ==> self.systems@[i].id != self.systems@[j].id)
        &&& (forall|i: int, j: int|
            0 <= i < j < self.links@.len() ==> self.links@[i].id != self.links@[j].id)
    }

    /// Ids stay below the serial counters and above zero.
    pub open spec fn ids_bounded(self) -> bool {
        &&& 1 <= self.next_id
        &&& 1 <= self.next_link_id
        &&& (forall|i: int|
            0 <= i < self.objects@.len() ==> 0 < #[trigger] self.objects@[i].id < self.next_id)
        &&& (forall|i: int|
            0 <= i < self.links@.len() ==> 0 < #[trigger] self.links@[i].id < self.next_link_id)
    }

    /// Every concrete row has an object row of the matching kind, and
    /// every object row has its concrete row in the matching relation.
    pub open spec fn kinds_match(self) -> bool {
        &&& (forall|i: int|
            0 <= i < self.sectors@.len() ==> obj_with(
                self.objects@,
                #[trigger] self.sectors@[i].id,
                GalaxyObjectType::Sector,
            ))
        &&& (forall|i: int|
            0 <= i < self.futures@.len() ==> obj_with(
                self.objects@,
                #[trigger] self.futures@[i].id,
                GalaxyObjectType::SectorFuture,
            ))
        &&& (forall|i: int|
            0 <= i < self.systems@.len() ==> obj_with(
                self.objects@,
                #[trigger] self.systems@[i].id,
                GalaxyObjectType::System,
            ))
        &&& (forall|i: int|
            0 <= i < self.objects@.len() ==> match (#[trigger] self.objects@[i]).obj_type {
                GalaxyObjectType::Sector => sector_present(self.sectors@, self.objects@[i].id),
                GalaxyObjectType::SectorFuture => future_present(
                    self.futures@,
                    self.objects@[i].id,
                ),
                GalaxyObjectType::System => system_present(self.systems@, self.objects@[i].id),
            })
    }

    /// Referential integrity of the tree: parents exist and were created
    /// before their children, so parent chains strictly descend.
    pub open spec fn parents_ok(self) -> bool {
        &&& (forall|i: int|
            0 <= i < self.sectors@.len() ==> match (#[trigger] self.sectors@[i]).parent_id {
                Some(p) => sector_present(self.sectors@, p) && 0 < p < self.sectors@[i].id,
                None => true,
            })
        &&& (forall|i: int|
            0 <= i < self.futures@.len() ==> sector_present(
                self.sectors@,
                (#[trigger] self.futures@[i]).parent_id,
            ) && 0 < self.futures@[i].parent_id < self.futures@[i].id)
        &&& (forall|i: int|
            0 <= i < self.systems@.len() ==> sector_present(
                self.sectors@,
                (#[trigger] self.systems@[i]).sector_id,
            ) && 0 < self.systems@[i].sector_id < self.systems@[i].id)
    }

    /// Both sides of every stored link resolve to an object row of the
    /// recorded kind.
    pub open spec fn links_ok(self) -> bool {
        forall|i: int|
            0 <= i < self.links@.len() ==> obj_with(
                self.objects@,
                (#[trigger] self.links@[i]).a_id,
                self.links@[i].a_obj_type,
            ) && obj_with(self.objects@, self.links@[i].b_id, self.links@[i].b_obj_type)
    }

    /// Stored futures stay within the fixed-point limits the expansion
    /// arithmetic relies on, and hold at least half a star, so that a
    /// fulfilled future always rounds to at least one child.
    pub open spec fn futures_bounded(self) -> bool {
        forall|i: int|
            0 <= i < self.futures@.len() ==> 500 <= (#[trigger] self.futures@[i]).stars
                <= STARS_LIMIT && self.futures@[i].radius <= RADIUS_LIMIT
    }

    /// Well-formedness of the whole store.
    pub open spec fn wf(self) -> bool {
        &&& self.ids_distinct()
        &&& self.ids_bounded()
        &&& self.kinds_match()
        &&& self.parents_ok()
        &&& self.links_ok()
        &&& self.futures_bounded()
    }

    /// An empty store.
    pub fn new() -> (g: Galaxy)
        ensures
            g.wf(),
            g.objects@.len() == 0,
            g.sectors@.len() == 0,
            g.futures@.len() == 0,
            g.systems@.len() == 0,
            g.links@.len() == 0,
            g.next_id == 1,
            g.next_link_id == 1,
    {
        Galaxy {
            objects: Vec::new(),
            sectors: Vec::new(),
            futures: Vec::new(),
            systems: Vec::new(),
            links: Vec::new(),
            next_id: 1,
            next_link_id: 1,
        }
    }

    /// How many galaxy objects the store holds.
    pub fn galaxy_object_count(&self) -> (n: usize)
        ensures
            n == self.objects@.len(),
    {
        self.objects.len()
    }

    /// How many links the store holds.
    pub fn link_count(&self) -> (n: usize)
        ensures
            n == self.links@.len(),
    {
        self.links.len()
    }

    /// Whether a sector row with this id exists.
    pub fn has_sector(&self, id: i32) -> (r: bool)
        ensures
            r == sector_present(self.sectors@, id),
    {
        let n = self.sectors.len();
        let mut i: usize = 0;
        while i < n
            invariant
                n == self.sectors@.len(),
                i <= n,
                forall|k: int| 0 <= k < i ==> self.sectors@[k].id != id,
            decreases n - i,
        {
            if self.sectors[i].id == id {
                return true;
            }
            i += 1;
        }
        false
    }
}

/// Appending one element to a sequence filters to the old filtrate, plus
/// the new element when it passes.
pub proof fn lemma_filter_push<A>(s: Seq<A>, x: A, p: spec_fn(A) -> bool)
    ensures
        s.push(x).filter(p) == if p(x) {
            s.filter(p).push(x)
        } else {
            s.filter(p)
        },
{
    reveal(Seq::filter);
    assert(s.push(x).drop_last() =~= s);
    assert(s.push(x).last() == x);
}

/// A filter whose predicate holds everywhere keeps the sequence intact.
pub proof fn lemma_filter_keep_all<A>(s: Seq<A>, p: spec_fn(A) -> bool)
    requires
        forall|i: int| 0 <= i < s.len() ==> p(#[trigger] s[i]),
    ensures
        s.filter(p) == s,
    decreases s.len(),
{
    reveal(Seq::filter);
    if s.len() > 0 {
        lemma_filter_keep_all(s.drop_last(), p);
        assert(s.drop_last().push(s.last()) =~= s);
        lemma_filter_push(s.drop_last(), s.last(), p);
    } else {
        assert(s.filter(p) =~= s);
    }
}

/// A filter whose predicate holds nowhere drops everything.
pub proof fn lemma_filter_drop_all<A>(s: Seq<A>, p: spec_fn(A) -> bool)
    requires
        forall|i: int| 0 <= i < s.len() ==> !p(#[trigger] s[i]),
    ensures
        s.filter(p) == Seq::<A>::empty(),
    decreases s.len(),
{
    reveal(Seq::filter);
    if s.len() > 0 {
        lemma_filter_drop_all(s.drop_last(), p);
        assert(s.drop_last().push(s.last()) =~= s);
        lemma_filter_push(s.drop_last(), s.last(), p);
    } else {
        assert(s.filter(p) =~= Seq::<A>::empty());
    }
}

/// Subtree members never have an id below the root: parent chains
/// strictly descend, so the root is the least id of its subtree.
pub proof fn lemma_subtree_ge(s: Seq<StarSector>, root: i32, x: i32)
    requires
        in_subtree(s, root, x),
    ensures
        root <= x,
    decreases x,
{
    if x != root {
        match parent_of(s, x) {
            Some(p) => {
                lemma_subtree_ge(s, root, p);
            },
            None => {},
        }
    }
}

/// A set of ids that contains the root and is closed under the child
/// step contains the whole subtree.
pub proof fn lemma_subtree_closed(s: Seq<StarSector>, root: i32, member: spec_fn(i32) -> bool, x: i32)
    requires
        member(root),
        forall|c: i32, p: i32|
            #![trigger member(p), parent_of(s, c)]
            member(p) && parent_of(s, c) == Some(p) && 0 <= p < c ==> member(c),
        in_subtree(s, root, x),
    ensures
        member(x),
    decreases x,
{
    if x != root {
        match parent_of(s, x) {
            Some(p) => {
                lemma_subtree_closed(s, root, member, p);
            },
            None => {},
        }
    }
}

/// Every element of a filtrate stands somewhere in the original.
pub proof fn lemma_filter_elements<A>(s: Seq<A>, p: spec_fn(A) -> bool)
    ensures
        forall|i: int| 0 <= i < s.filter(p).len() ==> s.contains(#[trigger] s.filter(p)[i]),
{
    assert forall|i: int|
        0 <= i < s.filter(p).len() implies s.contains(#[trigger] s.filter(p)[i]) by {
        assert(s.filter(p).contains(s.filter(p)[i]));
        s.lemma_filter_contains_rev(p, s.filter(p)[i]);
    }
}

/// Filtering keeps pairwise-distinct keys pairwise distinct.
pub proof fn lemma_filter_distinct_keys<A>(s: Seq<A>, p: spec_fn(A) -> bool, key: spec_fn(A) -> i32)
    requires
        forall|i: int, j: int| 0 <= i < j < s.len() ==> key(#[trigger] s[i]) != key(#[trigger] s[j]),
    ensures
        forall|i: int, j: int|
            0 <= i < j < s.filter(p).len() ==> key(#[trigger] s.filter(p)[i]) != key(
                #[trigger] s.filter(p)[j],
            ),
    decreases s.len(),
{
    reveal(Seq::filter);
    if s.len() > 0 {
        let d = s.drop_last();
        assert(forall|i: int, j: int|
            0 <= i < j < d.len() ==> key(#[trigger] d[i]) != key(#[trigger] d[j])) by {
            assert(forall|i: int| 0 <= i < d.len() ==> #[trigger] d[i] == s[i]);
        }
        lemma_filter_distinct_keys(d, p, key);
        lemma_filter_elements(d, p);
        if p(s.last()) {
            assert forall|i: int|
                0 <= i < d.filter(p).len() implies key(#[trigger] d.filter(p)[i]) != key(s.last())
                by {
                let m = choose|m: int| 0 <= m < d.len() && d[m] == d.filter(p)[i];
                assert(s[m] == d[m]);
                assert(key(s[m]) != key(s[s.len() - 1]));
            }
        }
    }
}

/// Distinct ids that all name sector rows are no more numerous than the
/// rows.
pub proof fn lemma_distinct_sector_ids_bound(ids: Seq<i32>, s: Seq<StarSector>)
    requires
        forall|i: int, j: int| 0 <= i < j < ids.len() ==> ids[i] != ids[j],
        forall|k: int| 0 <= k < ids.len() ==> sector_present(s, #[trigger] ids[k]),
    ensures
        ids.len() <= s.len(),
{
    broadcast use vstd::seq_lib::seq_to_set_is_finite;
    broadcast use vstd::set::group_set_axioms;

    let sids = s.map_values(|r: StarSector| r.id);
    assert(ids.no_duplicates());
    ids.unique_seq_to_set();
    assert forall|x: i32| ids.to_set().contains(x) implies sids.to_set().contains(x) by {
        assert(ids.contains(x));
        let m = choose|m: int| 0 <= m < s.len() && s[m].id == x;
        assert(sids[m] == x);
        assert(sids.contains(x));
    }
    assert(ids.to_set().subset_of(sids.to_set()));
    vstd::set_lib::lemma_len_subset(ids.to_set(), sids.to_set());
    sids.lemma_cardinality_of_set();
}

/// Appending one element adds exactly it to the membership.
pub proof fn lemma_push_contains<A>(s: Seq<A>, x: A)
    ensures
        forall|y: A| s.push(x).contains(y) == (s.contains(y) || y == x),
{
    assert forall|y: A| s.push(x).contains(y) implies (s.contains(y) || y == x) by {
        let k = choose|k: int| 0 <= k < s.push(x).len() && s.push(x)[k] == y;
        if k < s.len() {
            assert(s[k] == y);
        }
    }
    assert forall|y: A| (s.contains(y) || y == x) implies s.push(x).contains(y) by {
        if s.contains(y) {
            let k = choose|k: int| 0 <= k < s.len() && s[k] == y;
            assert(s.push(x)[k] == y);
        } else {
            assert(s.push(x)[s.len() as int] == y);
        }
    }
}

/// Dropping the last element splits the membership accordingly.
pub proof fn lemma_drop_last_contains<A>(s: Seq<A>)
    requires
        s.len() > 0,
    ensures
        forall|y: A| s.contains(y) == (s.drop_last().contains(y) || y == s.last()),
{
    assert(s.drop_last().push(s.last()) =~= s);
    lemma_push_contains(s.drop_last(), s.last());
}

/// Ancestor chains are linear: two roots that both reach `x` stand on
/// one chain, so one of them reaches the other.
pub proof fn lemma_subtree_linear(s: Seq<StarSector>, r1: i32, r2: i32, x: i32)
    requires
        in_subtree(s, r1, x),
        in_subtree(s, r2, x),
    ensures
        in_subtree(s, r1, r2) || in_subtree(s, r2, r1),
    decreases x,
{
    if x == r1 {
        assert(in_subtree(s, r2, r1));
    } else if x == r2 {
        assert(in_subtree(s, r1, r2));
    } else {
        match parent_of(s, x) {
            Some(p) => {
                lemma_subtree_linear(s, r1, r2, p);
            },
            None => {},
        }
    }
}

/// Filtering helpers that read the concrete relations.
impl Galaxy {
    /// The star systems belonging to one sector.
    pub fn star_systems_of_sector(&self, sector_id: i32) -> (r: Vec<StarSystem>)
        ensures
            r@ == self.systems@.filter(|y: StarSystem| y.sector_id == sector_id),
    {
        let ghost keep = |y: StarSystem| y.sector_id == sector_id;
        let mut out: Vec<StarSystem> = Vec::new();
        let n = self.systems.len();
        let mut i: usize = 0;
        proof {
            assert(self.systems@.take(0) =~= Seq::<StarSystem>::empty());
            lemma_filter_drop_all(self.systems@.take(0), keep);
        }
        while i < n
            invariant
                n == self.systems@.len(),
                i <= n,
                out@ == self.systems@.take(i as int).filter(keep),
                keep == (|y: StarSystem| y.sector_id == sector_id),
            decreases n - i,
        {
            let row = StarSystem {
                id: self.systems[i].id,
                name: self.systems[i].name.clone(),
                sector_id: self.systems[i].sector_id,
            };
            proof {
                assert(row == self.systems@[i as int]);
            }
            if row.sector_id == sector_id {
                out.push(row);
            }
            i += 1;
            proof {
                assert(self.systems@.take(i as int) =~= self.systems@.take(i as int - 1).push(
                    self.systems@[i as int - 1],
                ));
                lemma_filter_push(self.systems@.take(i as int - 1), self.systems@[i as int - 1], keep);
            }
        }
        proof {
            assert(self.systems@.take(n as int) =~= self.systems@);
        }
        out
    }

    /// The sectors that have no parent.
    pub fn root_sectors(&self) -> (r: Vec<StarSector>)
        ensures
            r@ == self.sectors@.filter(|s: StarSector| s.parent_id is None),
    {
        let ghost keep = |s: StarSector| s.parent_id is None;
        let mut out: Vec<StarSector> = Vec::new();
        let n = self.sectors.len();
        let mut i: usize = 0;
        proof {
            assert(self.sectors@.take(0) =~= Seq::<StarSector>::empty());
            lemma_filter_drop_all(self.sectors@.take(0), keep);
        }
        while i < n
            invariant
                n == self.sectors@.len(),
                i <= n,
                out@ == self.sectors@.take(i as int).filter(keep),
                keep == (|s: StarSector| s.parent_id is None),
            decreases n - i,
        {
            let row = self.sectors[i];
            let is_root = match row.parent_id {
                None => true,
                Some(_) => false,
            };
            if is_root {
                out.push(row);
            }
            i += 1;
            proof {
                assert(self.sectors@.take(i as int) =~= self.sectors@.take(i as int - 1).push(row));
                lemma_filter_push(self.sectors@.take(i as int - 1), row, keep);
            }
        }
        proof {
            assert(self.sectors@.take(n as int) =~= self.sectors@);
        }
        out
    }
}

} // verus!
