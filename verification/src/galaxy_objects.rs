use vstd::prelude::*;
use crate::models::{Error, GalaxyObject, GalaxyObjectType, NewStarLink, StarLink, StarSector,
    StarSectorFuture, StarSystem, link_eq, sides_of};
use crate::store::{Galaxy, RADIUS_LIMIT, STARS_LIMIT, future_index_of, future_present,
    in_subtree, lemma_distinct_sector_ids_bound, lemma_subtree_closed, lemma_subtree_ge,
    link_touches, links_without, obj_index_of, obj_present, obj_with, parent_of,
    sector_index_of, sector_present, system_present};
use crate::star_link::{capped_target, extra_links, generate_links, link_nodes_in, node_in};
use crate::tools::exp_weights;

verus! {

/// Fixed fanout: how many futures a subdivided sector gets.
pub const SUB_AMOUNT: u64 = 10;

/// Star-count cutoff (in thousandths): a region whose per-child share
/// falls below ten stars is generated as concrete systems.
pub const THRESHOLD: u64 = 10_000;

/// One whole star or radius unit, in fixed-point thousandths.
pub const MILLI: u64 = 1000;

/// Target link count per star of the region.
pub const LINKS_PER_STAR: u64 = 4;

/// Reciprocal cube root of the fanout, as the fixed-point fraction
/// 46416 / 100000: each subdivision level shrinks the radius by it, so
/// the ten children partition the parent's volume.
pub const RADIUS_SHRINK_NUM: u64 = 46_416;

/// Denominator of the radius shrink fraction.
pub const RADIUS_SHRINK_DEN: u64 = 100_000;

/// Largest serial id an expansion may start from: leaves room for one
/// batch of children.
pub const MAX_SAFE_ID: i32 = 0x7fff_ff00;

/// Largest link id an expansion may start from: leaves room for one
/// batch of links.
pub const MAX_SAFE_LINK_ID: i32 = 0x7bff_ffff;

/// Whether expansion materializes concrete star systems (true) or defers
/// into sector futures (false).
pub open spec fn star_branch(stars: u64) -> bool {
    stars / SUB_AMOUNT < THRESHOLD
}

/// The star count rounded to the nearest whole star.
pub open spec fn rounded_stars(stars: u64) -> int {
    ((stars + 500) / (MILLI as int)) as int
}

/// The kind tag of the children one expansion step creates.
pub open spec fn child_kind(stars: u64) -> GalaxyObjectType {
    if star_branch(stars) {
        GalaxyObjectType::System
    } else {
        GalaxyObjectType::SectorFuture
    }
}

/// How many children one expansion step creates.
pub open spec fn child_count(stars: u64) -> int {
    if star_branch(stars) {
        rounded_stars(stars)
    } else {
        SUB_AMOUNT as int
    }
}

/// The star share each deferred child receives.
pub open spec fn sub_stars_of(stars: u64) -> u64 {
    stars / SUB_AMOUNT
}

/// The radius each deferred child receives.
pub open spec fn sub_radius_of(radius: u64) -> u64 {
    ((radius as int) * (RADIUS_SHRINK_NUM as int) / (RADIUS_SHRINK_DEN as int)) as u64
}

/// The target edge count of one expansion batch.
pub open spec fn link_target(stars: u64) -> int {
    (stars as int) * (LINKS_PER_STAR as int) / (MILLI as int)
}

/// The object rows of one child batch: consecutive ids from `first`,
/// all of one kind.
pub open spec fn batch_objects(first: i32, count: int, t: GalaxyObjectType) -> Seq<GalaxyObject> {
    Seq::new(count as nat, |k: int| GalaxyObject { id: (first + k) as i32, obj_type: t })
}

/// The future rows of one deferred child batch.
pub open spec fn batch_futures(
    first: i32,
    count: int,
    parent: i32,
    stars: u64,
    radius: u64,
) -> Seq<StarSectorFuture> {
    Seq::new(
        count as nat,
        |k: int| StarSectorFuture { id: (first + k) as i32, parent_id: parent, radius, stars },
    )
}

/// The system rows appended by one concrete child batch: consecutive
/// ids from `first`, all belonging to the expanded sector, each carrying
/// the generated name.
pub open spec fn systems_batch_ok(
    added: Seq<StarSystem>,
    first: i32,
    count: int,
    sector: i32,
) -> bool {
    &&& added.len() == count
    &&& forall|k: int|
        0 <= k < added.len() ==> (#[trigger] added[k]).id == first + k && added[k].sector_id
            == sector && added[k].name@ == "StarName"@
}

/// The link rows appended by one expansion batch: consecutive link ids,
/// both endpoints inside the child id range with the batch's kind, at
/// least enough edges to span the batch, an exact count when repetition
/// is allowed, and, when uniqueness was asked, no self-links and no two
/// edges equal in the orientation-independent sense.
pub open spec fn links_batch_ok(
    added: Seq<StarLink>,
    first_link: i32,
    first_child: i32,
    count: int,
    t: GalaxyObjectType,
    unique: bool,
    target: int,
) -> bool {
    &&& forall|k: int| 0 <= k < added.len() ==> (#[trigger] added[k]).id == first_link + k
    &&& forall|k: int|
        0 <= k < added.len() ==> (#[trigger] added[k]).a_obj_type == t && added[k].b_obj_type == t
            && first_child <= added[k].a_id < first_child + count && first_child <= added[k].b_id
            < first_child + count
    &&& added.len() >= count - 1
    &&& (!unique ==> added.len() == count - 1 + extra_links(count, target))
    &&& (unique ==> added.len() <= capped_target(count, target))
    &&& (unique ==> forall|k: int|
        0 <= k < added.len() ==> (#[trigger] added[k]).a_id != added[k].b_id)
    &&& (unique ==> forall|k: int, m: int|
        0 <= m < k < added.len() ==> !link_eq(sides_of(added[m]), sides_of(added[k])))
}

/// What one fill step does to the store: children objects and rows
/// appended under fresh consecutive ids, links appended over them, and
/// nothing else touched.
pub open spec fn fill_post(
    pre: Galaxy,
    post: Galaxy,
    sector_id: i32,
    stars: u64,
    radius: u64,
) -> bool {
    let count = child_count(stars);
    let t = child_kind(stars);
    &&& post.sectors@ == pre.sectors@
    &&& post.next_id == pre.next_id + count
    &&& post.objects@ == pre.objects@ + batch_objects(pre.next_id, count, t)
    &&& (star_branch(stars) ==> post.futures@ == pre.futures@ && exists|added: Seq<StarSystem>|
        post.systems@ == pre.systems@ + added && systems_batch_ok(
            added,
            pre.next_id,
            count,
            sector_id,
        ))
    &&& (!star_branch(stars) ==> post.systems@ == pre.systems@ && post.futures@ == pre.futures@
        + batch_futures(pre.next_id, count, sector_id, sub_stars_of(stars), sub_radius_of(radius)))
    &&& exists|ladd: Seq<StarLink>|
        post.links@ == pre.links@ + ladd && links_batch_ok(
            ladd,
            pre.next_link_id,
            pre.next_id,
            count,
            t,
            star_branch(stars),
            link_target(stars),
        ) && post.next_link_id == pre.next_link_id + ladd.len()
}

/// What one whole expansion does to the store: one sector row under the
/// requested parent, then a fill of that sector.
pub open spec fn expand_post(
    pre: Galaxy,
    post: Galaxy,
    s: StarSector,
    stars: u64,
    radius: u64,
    parent: Option<i32>,
) -> bool {
    let count = child_count(stars);
    let t = child_kind(stars);
    let first = (pre.next_id + 1) as i32;
    &&& s.id == pre.next_id
    &&& s.parent_id == parent
    &&& post.sectors@ == pre.sectors@.push(s)
    &&& post.next_id == pre.next_id + 1 + count
    &&& post.objects@ == pre.objects@.push(
        GalaxyObject { id: pre.next_id, obj_type: GalaxyObjectType::Sector },
    ) + batch_objects(first, count, t)
    &&& (star_branch(stars) ==> post.futures@ == pre.futures@ && exists|added: Seq<StarSystem>|
        post.systems@ == pre.systems@ + added && systems_batch_ok(added, first, count, s.id))
    &&& (!star_branch(stars) ==> post.systems@ == pre.systems@ && post.futures@ == pre.futures@
        + batch_futures(first, count, s.id, sub_stars_of(stars), sub_radius_of(radius)))
    &&& exists|ladd: Seq<StarLink>|
        post.links@ == pre.links@ + ladd && links_batch_ok(
            ladd,
            pre.next_link_id,
            first,
            count,
            t,
            star_branch(stars),
            link_target(stars),
        ) && post.next_link_id == pre.next_link_id + ladd.len()
}

/// Append one batch of children object rows under fresh consecutive ids.
fn push_children_objects(g: &mut Galaxy, count: usize, t: GalaxyObjectType) -> (batch: Vec<
    GalaxyObject,
>)
    requires
        count <= 100,
        old(g).next_id + count <= i32::MAX,
    ensures
        batch@ == batch_objects(old(g).next_id, count as int, t),
        final(g).objects@ == old(g).objects@ + batch@,
        final(g).next_id == old(g).next_id + count,
        final(g).sectors@ == old(g).sectors@,
        final(g).futures@ == old(g).futures@,
        final(g).systems@ == old(g).systems@,
        final(g).links@ == old(g).links@,
        final(g).next_link_id == old(g).next_link_id,
{
    let ghost g0 = *old(g);
    let mut batch: Vec<GalaxyObject> = Vec::new();
    let mut k: usize = 0;
    while k < count
        invariant
            k <= count,
            count <= 100,
            g0.next_id + count <= i32::MAX,
            g.next_id == g0.next_id + k,
            batch@ == batch_objects(g0.next_id, k as int, t),
            g.objects@ == g0.objects@ + batch@,
            g.sectors@ == g0.sectors@,
            g.futures@ == g0.futures@,
            g.systems@ == g0.systems@,
            g.links@ == g0.links@,
            g.next_link_id == g0.next_link_id,
        decreases count - k,
    {
        let obj = GalaxyObject { id: g.next_id, obj_type: t };
        g.objects.push(obj);
        batch.push(obj);
        g.next_id = g.next_id + 1;
        k += 1;
        proof {
            assert(batch@ =~= batch_objects(g0.next_id, k as int, t));
            assert(g.objects@ =~= g0.objects@ + batch@);
        }
    }
    batch
}

/// Append one system row per child identity, under the expanded sector.
fn push_system_rows(g: &mut Galaxy, batch: &Vec<GalaxyObject>, sector_id: i32)
    ensures
        final(g).systems@.len() == old(g).systems@.len() + batch@.len(),
        forall|i: int|
            0 <= i < old(g).systems@.len() ==> final(g).systems@[i] == old(g).systems@[i],
        forall|i: int|
            0 <= i < batch@.len() ==> (#[trigger] final(g).systems@[old(g).systems@.len() + i]).id
                == batch@[i].id && final(g).systems@[old(g).systems@.len() + i].sector_id
                == sector_id && final(g).systems@[old(g).systems@.len() + i].name@
                == "StarName"@,
        final(g).objects@ == old(g).objects@,
        final(g).sectors@ == old(g).sectors@,
        final(g).futures@ == old(g).futures@,
        final(g).links@ == old(g).links@,
        final(g).next_id == old(g).next_id,
        final(g).next_link_id == old(g).next_link_id,
{
    let ghost g0 = *old(g);
    let n = batch.len();
    let mut m: usize = 0;
    while m < n
        invariant
            m <= n,
            n == batch@.len(),
            g.systems@.len() == g0.systems@.len() + m,
            forall|i: int| 0 <= i < g0.systems@.len() ==> g.systems@[i] == g0.systems@[i],
            forall|i: int|
                0 <= i < m ==> (#[trigger] g.systems@[g0.systems@.len() + i]).id == batch@[i].id
                    && g.systems@[g0.systems@.len() + i].sector_id == sector_id
                    && g.systems@[g0.systems@.len() + i].name@ == "StarName"@,
            g.objects@ == g0.objects@,
            g.sectors@ == g0.sectors@,
            g.futures@ == g0.futures@,
            g.links@ == g0.links@,
            g.next_id == g0.next_id,
            g.next_link_id == g0.next_link_id,
        decreases n - m,
    {
        let row = StarSystem {
            id: batch[m].id,
            name: "StarName".to_string(),
            sector_id,
        };
        g.systems.push(row);
        m += 1;
    }
}

/// Append one future row per child identity, carrying the deferred star
/// share and radius, under the expanded sector.
fn push_future_rows(
    g: &mut Galaxy,
    batch: &Vec<GalaxyObject>,
    sector_id: i32,
    sub_stars: u64,
    sub_radius: u64,
)
    ensures
        final(g).futures@.len() == old(g).futures@.len() + batch@.len(),
        forall|i: int|
            0 <= i < old(g).futures@.len() ==> final(g).futures@[i] == old(g).futures@[i],
        forall|i: int|
            0 <= i < batch@.len() ==> #[trigger] final(g).futures@[old(g).futures@.len() + i]
                == (StarSectorFuture {
                id: batch@[i].id,
                parent_id: sector_id,
                radius: sub_radius,
                stars: sub_stars,
            }),
        final(g).objects@ == old(g).objects@,
        final(g).sectors@ == old(g).sectors@,
        final(g).systems@ == old(g).systems@,
        final(g).links@ == old(g).links@,
        final(g).next_id == old(g).next_id,
        final(g).next_link_id == old(g).next_link_id,
{
    let ghost g0 = *old(g);
    let n = batch.len();
    let mut m: usize = 0;
    while m < n
        invariant
            m <= n,
            n == batch@.len(),
            g.futures@.len() == g0.futures@.len() + m,
            forall|i: int| 0 <= i < g0.futures@.len() ==> g.futures@[i] == g0.futures@[i],
            forall|i: int|
                0 <= i < m ==> #[trigger] g.futures@[g0.futures@.len() + i] == (StarSectorFuture {
                    id: batch@[i].id,
                    parent_id: sector_id,
                    radius: sub_radius,
                    stars: sub_stars,
                }),
            g.objects@ == g0.objects@,
            g.sectors@ == g0.sectors@,
            g.systems@ == g0.systems@,
            g.links@ == g0.links@,
            g.next_id == g0.next_id,
            g.next_link_id == g0.next_link_id,
        decreases n - m,
    {
        let row = StarSectorFuture {
            id: batch[m].id,
            parent_id: sector_id,
            radius: sub_radius,
            stars: sub_stars,
        };
        g.futures.push(row);
        m += 1;
    }
}

/// Store one batch of generated links under fresh consecutive link ids.
fn store_links(g: &mut Galaxy, new_links: &Vec<NewStarLink>)
    requires
        old(g).next_link_id + new_links@.len() <= i32::MAX,
    ensures
        final(g).links@.len() == old(g).links@.len() + new_links@.len(),
        forall|i: int| 0 <= i < old(g).links@.len() ==> final(g).links@[i] == old(g).links@[i],
        forall|i: int|
            0 <= i < new_links@.len() ==> #[trigger] final(g).links@[old(g).links@.len() + i]
                == (StarLink {
                id: (old(g).next_link_id + i) as i32,
                a_id: new_links@[i].a_id,
                a_obj_type: new_links@[i].a_obj_type,
                b_id: new_links@[i].b_id,
                b_obj_type: new_links@[i].b_obj_type,
            }),
        final(g).next_link_id == old(g).next_link_id + new_links@.len(),
        final(g).objects@ == old(g).objects@,
        final(g).sectors@ == old(g).sectors@,
        final(g).futures@ == old(g).futures@,
        final(g).systems@ == old(g).systems@,
        final(g).next_id == old(g).next_id,
{
    let ghost g0 = *old(g);
    let n = new_links.len();
    let mut m: usize = 0;
    while m < n
        invariant
            m <= n,
            n == new_links@.len(),
            g0.next_link_id + n <= i32::MAX,
            g.next_link_id == g0.next_link_id + m,
            g.links@.len() == g0.links@.len() + m,
            forall|i: int| 0 <= i < g0.links@.len() ==> g.links@[i] == g0.links@[i],
            forall|i: int|
                0 <= i < m ==> #[trigger] g.links@[g0.links@.len() + i] == (StarLink {
                    id: (g0.next_link_id + i) as i32,
                    a_id: new_links@[i].a_id,
                    a_obj_type: new_links@[i].a_obj_type,
                    b_id: new_links@[i].b_id,
                    b_obj_type: new_links@[i].b_obj_type,
                }),
            g.objects@ == g0.objects@,
            g.sectors@ == g0.sectors@,
            g.futures@ == g0.futures@,
            g.systems@ == g0.systems@,
            g.next_id == g0.next_id,
        decreases n - m,
    {
        let l = new_links[m];
        let row = StarLink {
            id: g.next_link_id,
            a_id: l.a_id,
            a_obj_type: l.a_obj_type,
            b_id: l.b_id,
            b_obj_type: l.b_obj_type,
        };
        g.links.push(row);
        g.next_link_id = g.next_link_id + 1;
        m += 1;
    }
}

/// A filled store stays well formed: the children sit under fresh ids
/// of the right kind, their rows point back at an existing sector, and
/// the new links stay inside the batch.
proof fn lemma_fill_wf(pre: Galaxy, post: Galaxy, sector_id: i32, stars: u64, radius: u64)
    requires
        pre.wf(),
        sector_present(pre.sectors@, sector_id),
        stars <= STARS_LIMIT,
        radius <= RADIUS_LIMIT,
        child_count(stars) >= 1,
        pre.next_id <= MAX_SAFE_ID,
        pre.next_link_id <= MAX_SAFE_LINK_ID,
        fill_post(pre, post, sector_id, stars, radius),
    ensures
        post.wf(),
{
    let count = child_count(stars);
    let t = child_kind(stars);
    let first = pre.next_id as int;
    let prelen = pre.objects@.len() as int;
    let batch = batch_objects(pre.next_id, count, t);
    assert(count <= 100);

    // the expanded sector's object gives its id a bound
    let si = choose|i: int| 0 <= i < pre.sectors@.len() && pre.sectors@[i].id == sector_id;
    assert(obj_with(pre.objects@, pre.sectors@[si].id, GalaxyObjectType::Sector));
    assert(0 < sector_id < pre.next_id);

    let ladd = choose|ladd: Seq<StarLink>|
        post.links@ == pre.links@ + ladd && links_batch_ok(
            ladd,
            pre.next_link_id,
            pre.next_id,
            count,
            t,
            star_branch(stars),
            link_target(stars),
        ) && post.next_link_id == pre.next_link_id + ladd.len();

    // every new object id is the cast-free sum first + k
    assert(forall|k: int| 0 <= k < count ==> (#[trigger] batch[k]).id == first + k);
    assert(post.objects@.len() == prelen + count);
    assert(forall|i: int| 0 <= i < prelen ==> post.objects@[i] == pre.objects@[i]);
    assert(forall|i: int| prelen <= i < prelen + count ==> post.objects@[i] == batch[i - prelen]);

    assert(post.ids_distinct()) by {
        assert(forall|i: int, j: int|
            0 <= i < j < post.objects@.len() ==> post.objects@[i].id != post.objects@[j].id) by {
            assert(forall|i: int|
                0 <= i < prelen ==> 0 < (#[trigger] post.objects@[i]).id < pre.next_id);
        }
        if star_branch(stars) {
            let added = choose|added: Seq<StarSystem>|
                post.systems@ == pre.systems@ + added && systems_batch_ok(
                    added,
                    pre.next_id,
                    count,
                    sector_id,
                );
            assert(forall|i: int, j: int|
                0 <= i < j < post.systems@.len() ==> post.systems@[i].id != post.systems@[j].id)
                by {
                assert(forall|i: int|
                    0 <= i < pre.systems@.len() ==> obj_with(
                        pre.objects@,
                        (#[trigger] pre.systems@[i]).id,
                        GalaxyObjectType::System,
                    ));
                assert(forall|i: int|
                    0 <= i < pre.systems@.len() ==> 0 < (#[trigger] pre.systems@[i]).id
                        < pre.next_id);
            }
        } else {
            assert(forall|i: int, j: int|
                0 <= i < j < post.futures@.len() ==> post.futures@[i].id != post.futures@[j].id)
                by {
                assert(forall|i: int|
                    0 <= i < pre.futures@.len() ==> obj_with(
                        pre.objects@,
                        (#[trigger] pre.futures@[i]).id,
                        GalaxyObjectType::SectorFuture,
                    ));
                assert(forall|i: int|
                    0 <= i < pre.futures@.len() ==> 0 < (#[trigger] pre.futures@[i]).id
                        < pre.next_id);
            }
        }
        assert(forall|i: int, j: int|
            0 <= i < j < post.links@.len() ==> post.links@[i].id != post.links@[j].id) by {
            assert(forall|i: int|
                0 <= i < pre.links@.len() ==> 0 < (#[trigger] post.links@[i]).id
                    < pre.next_link_id);
            assert(forall|i: int|
                pre.links@.len() <= i < post.links@.len() ==> (#[trigger] post.links@[i]).id
                    == pre.next_link_id + (i - pre.links@.len()));
        }
    }

    assert(post.ids_bounded()) by {
        assert(forall|i: int|
            0 <= i < post.objects@.len() ==> 0 < (#[trigger] post.objects@[i]).id < post.next_id);
        assert(forall|i: int|
            0 <= i < post.links@.len() ==> 0 < (#[trigger] post.links@[i]).id
                < post.next_link_id) by {
            assert(forall|i: int|
                pre.links@.len() <= i < post.links@.len() ==> (#[trigger] post.links@[i]).id
                    == pre.next_link_id + (i - pre.links@.len()));
        }
    }

    assert(post.kinds_match()) by {
        // concrete rows of the old store keep their object row
        assert(forall|id: i32, tt: GalaxyObjectType|
            obj_with(pre.objects@, id, tt) ==> obj_with(post.objects@, id, tt)) by {
            assert(forall|i: int|
                0 <= i < prelen ==> post.objects@[i] == #[trigger] pre.objects@[i]);
        }
        // each new object has its concrete row
        if star_branch(stars) {
            let added = choose|added: Seq<StarSystem>|
                post.systems@ == pre.systems@ + added && systems_batch_ok(
                    added,
                    pre.next_id,
                    count,
                    sector_id,
                );
            assert forall|k: int|
                0 <= k < count implies #[trigger] system_present(
                post.systems@,
                (first + k) as i32,
            ) by {
                let i = pre.systems@.len() + k;
                assert(post.systems@[i] == added[k]);
                assert(added[k].id == first + k);
                assert(post.systems@[i].id == (first + k) as i32);
            }
            assert forall|id: i32|
                system_present(pre.systems@, id) implies system_present(post.systems@, id) by {
                let i = choose|i: int| 0 <= i < pre.systems@.len() && pre.systems@[i].id == id;
                assert(post.systems@[i] == pre.systems@[i]);
            }
        } else {
            assert forall|k: int|
                0 <= k < count implies #[trigger] future_present(
                post.futures@,
                (first + k) as i32,
            ) by {
                let i = pre.futures@.len() + k;
                assert(post.futures@[i] == batch_futures(
                    pre.next_id,
                    count,
                    sector_id,
                    sub_stars_of(stars),
                    sub_radius_of(radius),
                )[k]);
                assert(post.futures@[i].id == (first + k) as i32);
            }
            assert forall|id: i32|
                future_present(pre.futures@, id) implies future_present(post.futures@, id) by {
                let i = choose|i: int| 0 <= i < pre.futures@.len() && pre.futures@[i].id == id;
                assert(post.futures@[i] == pre.futures@[i]);
            }
        }
        // each new concrete row has its object row among the batch
        assert forall|k: int| 0 <= k < count implies #[trigger] obj_with(
            post.objects@,
            ((first + k) as i32),
            t,
        ) by {
            assert(post.objects@[prelen + k] == batch[k]);
            assert(batch[k] == (GalaxyObject { id: ((first + k) as i32), obj_type: t }));
        }
        if star_branch(stars) {
            let added = choose|added: Seq<StarSystem>|
                post.systems@ == pre.systems@ + added && systems_batch_ok(
                    added,
                    pre.next_id,
                    count,
                    sector_id,
                );
            assert forall|i: int|
                pre.systems@.len() <= i < post.systems@.len() implies obj_with(
                post.objects@,
                (#[trigger] post.systems@[i]).id,
                GalaxyObjectType::System,
            ) by {
                let k = i - pre.systems@.len();
                assert(post.systems@[i] == added[k]);
                assert(added[k].id == first + k);
                assert(added[k].id == (first + k) as i32);
                assert(obj_with(post.objects@, ((first + k) as i32), t));
            }
        } else {
            assert forall|i: int|
                pre.futures@.len() <= i < post.futures@.len() implies obj_with(
                post.objects@,
                (#[trigger] post.futures@[i]).id,
                GalaxyObjectType::SectorFuture,
            ) by {
                let k = i - pre.futures@.len();
                assert(post.futures@[i].id == (first + k) as i32);
                assert(obj_with(post.objects@, ((first + k) as i32), t));
            }
        }
        // every object of the new store resolves: old ones through the
        // preserved rows, new ones through their fresh concrete row
        assert forall|i: int|
            0 <= i < post.objects@.len() implies match (#[trigger] post.objects@[i]).obj_type {
            GalaxyObjectType::Sector => sector_present(post.sectors@, post.objects@[i].id),
            GalaxyObjectType::SectorFuture => future_present(post.futures@, post.objects@[i].id),
            GalaxyObjectType::System => system_present(post.systems@, post.objects@[i].id),
        } by {
            if i < prelen {
                assert(post.objects@[i] == pre.objects@[i]);
                if star_branch(stars) {
                    assert(future_present(pre.futures@, post.objects@[i].id) ==> future_present(
                        post.futures@,
                        post.objects@[i].id,
                    ));
                    assert(system_present(pre.systems@, post.objects@[i].id) ==> system_present(
                        post.systems@,
                        post.objects@[i].id,
                    ));
                } else {
                    assert(future_present(pre.futures@, post.objects@[i].id) ==> future_present(
                        post.futures@,
                        post.objects@[i].id,
                    ));
                }
            } else {
                let k = i - prelen;
                assert(post.objects@[i] == batch[k]);
                assert(post.objects@[i].id == (first + k) as i32);
                assert(post.objects@[i].obj_type == t);
            }
        }
    }

    assert(post.parents_ok()) by {
        if star_branch(stars) {
            assert(forall|i: int|
                0 <= i < pre.systems@.len() ==> post.systems@[i] == #[trigger] pre.systems@[i]);
            assert(forall|i: int|
                pre.systems@.len() <= i < post.systems@.len()
                    ==> (#[trigger] post.systems@[i]).sector_id == sector_id
                    && post.systems@[i].id == first + (i - pre.systems@.len()));
        } else {
            assert(forall|i: int|
                0 <= i < pre.futures@.len() ==> post.futures@[i] == #[trigger] pre.futures@[i]);
            assert(forall|i: int|
                pre.futures@.len() <= i < post.futures@.len()
                    ==> (#[trigger] post.futures@[i]).parent_id == sector_id
                    && post.futures@[i].id == first + (i - pre.futures@.len()));
        }
    }

    assert(post.links_ok()) by {
        assert(forall|id: i32, tt: GalaxyObjectType|
            obj_with(pre.objects@, id, tt) ==> obj_with(post.objects@, id, tt)) by {
            assert(forall|i: int|
                0 <= i < prelen ==> post.objects@[i] == #[trigger] pre.objects@[i]);
        }
        assert(forall|i: int| 0 <= i < pre.links@.len() ==> post.links@[i] == pre.links@[i]);
        // a new link's endpoints are children, whose object rows exist
        assert(forall|k: int|
            0 <= k < count ==> #[trigger] post.objects@[prelen + k] == (GalaxyObject {
                id: ((first + k) as i32),
                obj_type: t,
            }));
        assert forall|id: i32| first <= id < first + count implies obj_with(
            post.objects@,
            id,
            t,
        ) by {
            let k = id - first;
            assert(post.objects@[prelen + k] == batch[k]);
            assert(batch[k] == (GalaxyObject { id: ((first + k) as i32), obj_type: t }));
            assert(((first + k) as i32) == id);
        }
        assert(forall|i: int|
            pre.links@.len() <= i < post.links@.len() ==> obj_with(
                post.objects@,
                (#[trigger] post.links@[i]).a_id,
                post.links@[i].a_obj_type,
            ) && obj_with(post.objects@, post.links@[i].b_id, post.links@[i].b_obj_type)) by {
            assert(forall|i: int|
                pre.links@.len() <= i < post.links@.len() ==> #[trigger] post.links@[i]
                    == ladd[i - pre.links@.len()]);
        }
    }

    assert(post.futures_bounded()) by {
        if !star_branch(stars) {
            assert(sub_stars_of(stars) <= STARS_LIMIT);
            assert(((radius as int) * (RADIUS_SHRINK_NUM as int) / (RADIUS_SHRINK_DEN as int))
                <= radius as int) by (nonlinear_arith)
                requires
                    0 <= radius as int,
            ;
            assert(sub_radius_of(radius) <= RADIUS_LIMIT);
            assert(forall|i: int|
                0 <= i < pre.futures@.len() ==> post.futures@[i] == #[trigger] pre.futures@[i]);
        }
    }
}

/// Fill one sector: create its children (systems or futures) and the
/// randomized link graph over them. The sector must exist; everything
/// the step creates sits under fresh ids.
pub(crate) fn fill_star_sector(g: &mut Galaxy, sector_id: i32, stars: u64, radius: u64)
    requires
        old(g).wf(),
        sector_present(old(g).sectors@, sector_id),
        stars <= STARS_LIMIT,
        radius <= RADIUS_LIMIT,
        child_count(stars) >= 1,
        old(g).next_id <= MAX_SAFE_ID,
        old(g).next_link_id <= MAX_SAFE_LINK_ID,
    ensures
        final(g).wf(),
        fill_post(*old(g), *final(g), sector_id, stars, radius),
{
    let ghost g0 = *old(g);
    let create_stars = stars / SUB_AMOUNT < THRESHOLD;
    let count64: u64 = if create_stars {
        (stars + 500) / MILLI
    } else {
        SUB_AMOUNT
    };
    proof {
        assert(create_stars == star_branch(stars));
        assert(count64 == child_count(stars));
        assert(count64 <= 100);
    }
    let count: usize = count64 as usize;
    let t = if create_stars {
        GalaxyObjectType::System
    } else {
        GalaxyObjectType::SectorFuture
    };

    // children identities
    let batch = push_children_objects(g, count, t);

    // concrete rows
    if create_stars {
        push_system_rows(g, &batch, sector_id);
        proof {
            let added = g.systems@.subrange(g0.systems@.len() as int, g.systems@.len() as int);
            assert(g.systems@ =~= g0.systems@ + added);
            assert forall|k: int|
                0 <= k < added.len() implies (#[trigger] added[k]).id == g0.next_id + k
                && added[k].sector_id == sector_id && added[k].name@ == "StarName"@ by {
                assert(added[k] == g.systems@[g0.systems@.len() + k]);
                assert(g.systems@[g0.systems@.len() + k].id == batch@[k].id);
                assert(g.systems@[g0.systems@.len() + k].name@ == "StarName"@);
                assert(batch@[k].id == (g0.next_id + k) as i32);
            }
            assert(systems_batch_ok(added, g0.next_id, count as int, sector_id));
        }
    } else {
        let sub_stars = stars / SUB_AMOUNT;
        let sub_radius = (radius * RADIUS_SHRINK_NUM) / RADIUS_SHRINK_DEN;
        push_future_rows(g, &batch, sector_id, sub_stars, sub_radius);
        proof {
            assert(sub_stars == sub_stars_of(stars));
            assert(sub_radius == sub_radius_of(radius));
            let bf = batch_futures(
                g0.next_id,
                count as int,
                sector_id,
                sub_stars_of(stars),
                sub_radius_of(radius),
            );
            assert forall|j: int|
                g0.futures@.len() <= j < g.futures@.len() implies #[trigger] g.futures@[j] == bf[j
                - g0.futures@.len()] by {
                let k = j - g0.futures@.len();
                assert(g.futures@[g0.futures@.len() + k] == (StarSectorFuture {
                    id: batch@[k].id,
                    parent_id: sector_id,
                    radius: sub_radius,
                    stars: sub_stars,
                }));
                assert(batch@[k].id == (g0.next_id + k) as i32);
            }
            assert(g.futures@ =~= g0.futures@ + bf);
        }
    }

    // the weighted node list of the batch
    let weights = exp_weights(count);
    let mut pairs: Vec<(GalaxyObject, u32)> = Vec::new();
    let mut q: usize = 0;
    while q < count
        invariant
            q <= count,
            count == batch@.len(),
            weights@.len() == count,
            pairs@.len() == q,
            forall|i: int| 0 <= i < q ==> #[trigger] pairs@[i] == (batch@[i], weights@[i]),
        decreases count - q,
    {
        pairs.push((batch[q], weights[q]));
        q += 1;
    }

    let target64: u64 = stars * LINKS_PER_STAR / MILLI;
    let target: usize = target64 as usize;
    proof {
        assert(target64 <= 4_000_000);
        assert(target == link_target(stars));
        if create_stars {
            // the capped unique target still covers the spanning pass
            let c = count as int;
            assert(c * (c - 1) / 2 >= c - 1) by (nonlinear_arith)
                requires
                    1 <= c,
            ;
            assert(stars >= 500);
            assert((stars + 500) / (MILLI as int) - 1 == (stars - 500) / (MILLI as int));
            vstd::arithmetic::div_mod::lemma_div_is_ordered(
                stars as int - 500,
                (stars as int) * (LINKS_PER_STAR as int),
                MILLI as int,
            );
            assert(link_target(stars) >= c - 1);
            assert(capped_target(c, target as int) >= c - 1);
        }
    }
    let ghost pairs0 = pairs@;
    let new_links = generate_links(&mut pairs, target, create_stars);
    proof {
        assert(new_links@.len() <= count + target);
        assert(g.next_link_id + new_links@.len() <= i32::MAX);
        if create_stars {
            assert(forall|i: int, j: int| 0 <= i < j < pairs0.len() ==> pairs0[i].0 != pairs0[j].0);
            crate::star_link::lemma_same_multiset_distinct(pairs0, pairs@);
            crate::star_link::lemma_same_multiset_same_nodes(pairs0, pairs@);
        }
    }
    let ghost links_before = g.links@;
    let ghost first_link = g.next_link_id;
    store_links(g, &new_links);
    proof {
        let count_i = count as int;
        let first = g0.next_id as int;
        let ladd = g.links@.subrange(links_before.len() as int, g.links@.len() as int);
        assert(g.links@ =~= links_before + ladd);
        // endpoints of every generated link are batch children
        assert forall|k: int| 0 <= k < ladd.len() implies (#[trigger] ladd[k]).a_obj_type == t
            && ladd[k].b_obj_type == t && first <= ladd[k].a_id < first + count_i && first
            <= ladd[k].b_id < first + count_i by {
            assert(ladd[k] == g.links@[links_before.len() + k]);
            assert(link_nodes_in(new_links@[k], pairs0));
            let a = new_links@[k].side_a_spec();
            let b = new_links@[k].side_b_spec();
            let ja = choose|j: int| 0 <= j < pairs0.len() && pairs0[j].0 == a;
            let jb = choose|j: int| 0 <= j < pairs0.len() && pairs0[j].0 == b;
            assert(batch@[ja] == a);
            assert(batch@[jb] == b);
            assert(a.id == first + ja && a.obj_type == t);
            assert(b.id == first + jb && b.obj_type == t);
        }
        if create_stars {
            // uniqueness keeps the two sides of every link distinct
            assert forall|k: int| 0 <= k < ladd.len() implies (#[trigger] ladd[k]).a_id
                != ladd[k].b_id by {
                assert(ladd[k] == g.links@[links_before.len() + k]);
                let l = new_links@[k];
                let a = l.side_a_spec();
                let b = l.side_b_spec();
                if k < count_i - 1 {
                    assert(l == crate::star_link::link_of(pairs@[k].0, pairs@[k + 1].0));
                    assert(a == pairs@[k].0 && b == pairs@[k + 1].0);
                    assert(a != b);
                } else {
                    assert(a != b);
                }
                assert(node_in(pairs0, a) && node_in(pairs0, b));
                let ja = choose|j: int| 0 <= j < pairs0.len() && pairs0[j].0 == a;
                let jb = choose|j: int| 0 <= j < pairs0.len() && pairs0[j].0 == b;
                assert(batch@[ja] == a && batch@[jb] == b);
                assert(a.id == first + ja && b.id == first + jb);
            }
            // and no two stored edges of the batch coincide: spanning-path
            // edges are consecutive pairs of a duplicate-free order, and
            // the sampling pass rejected every repeat
            assert forall|k: int, m: int|
                0 <= m < k < ladd.len() implies !link_eq(
                sides_of(ladd[m]),
                sides_of(ladd[k]),
            ) by {
                assert(ladd[k] == g.links@[links_before.len() + k]);
                assert(ladd[m] == g.links@[links_before.len() + m]);
                assert(sides_of(ladd[k]) == new_links@[k]);
                assert(sides_of(ladd[m]) == new_links@[m]);
                if k < count_i - 1 {
                    assert(new_links@[k] == crate::star_link::link_of(
                        pairs@[k].0,
                        pairs@[k + 1].0,
                    ));
                    assert(new_links@[m] == crate::star_link::link_of(
                        pairs@[m].0,
                        pairs@[m + 1].0,
                    ));
                    assert(forall|x: int, y: int|
                        0 <= x < y < pairs@.len() ==> pairs@[x].0 != pairs@[y].0);
                    assert(!link_eq(new_links@[m], new_links@[k]));
                } else {
                    assert(!link_eq(new_links@[m], new_links@[k]));
                }
            }
        }
        assert forall|k: int| 0 <= k < ladd.len() implies (#[trigger] ladd[k]).id == first_link
            + k by {
            assert(ladd[k] == g.links@[links_before.len() + k]);
            assert(g.links@[links_before.len() + k].id == (first_link + k) as i32);
        }
        assert(ladd.len() == new_links@.len());
        assert(links_batch_ok(
            ladd,
            first_link,
            g0.next_id,
            count_i,
            t,
            create_stars,
            link_target(stars),
        ));
        assert(fill_post(g0, *g, sector_id, stars, radius));
        lemma_fill_wf(g0, *g, sector_id, stars, radius);
    }
}


/// Create one sector row (and its galaxy object) under the given parent.
fn create_star_sector(g: &mut Galaxy, parent: Option<i32>) -> (s: StarSector)
    requires
        old(g).wf(),
        match parent {
            Some(p) => sector_present(old(g).sectors@, p),
            None => true,
        },
        old(g).next_id < i32::MAX,
    ensures
        final(g).wf(),
        s.id == old(g).next_id,
        s.parent_id == parent,
        final(g).sectors@ == old(g).sectors@.push(s),
        final(g).objects@ == old(g).objects@.push(
            GalaxyObject { id: old(g).next_id, obj_type: GalaxyObjectType::Sector },
        ),
        final(g).next_id == old(g).next_id + 1,
        final(g).futures@ == old(g).futures@,
        final(g).systems@ == old(g).systems@,
        final(g).links@ == old(g).links@,
        final(g).next_link_id == old(g).next_link_id,
{
    let ghost g0 = *old(g);
    let obj = GalaxyObject { id: g.next_id, obj_type: GalaxyObjectType::Sector };
    g.objects.push(obj);
    let s = StarSector { id: g.next_id, parent_id: parent };
    g.sectors.push(s);
    g.next_id = g.next_id + 1;
    proof {
        assert(g.objects@[g0.objects@.len() as int] == obj);
        assert(g.sectors@[g0.sectors@.len() as int] == s);
        assert(obj_with(g.objects@, s.id, GalaxyObjectType::Sector));
        assert(sector_present(g.sectors@, s.id));
        assert forall|id: i32, tt: GalaxyObjectType|
            obj_with(g0.objects@, id, tt) implies obj_with(g.objects@, id, tt) by {
            let i = choose|i: int|
                0 <= i < g0.objects@.len() && g0.objects@[i].id == id && g0.objects@[i].obj_type
                    == tt;
            assert(g.objects@[i] == g0.objects@[i]);
        }
        assert forall|id: i32|
            sector_present(g0.sectors@, id) implies sector_present(g.sectors@, id) by {
            let i = choose|i: int| 0 <= i < g0.sectors@.len() && g0.sectors@[i].id == id;
            assert(g.sectors@[i] == g0.sectors@[i]);
        }
        assert(g.wf()) by {
            assert(forall|i: int|
                0 <= i < g0.objects@.len() ==> g.objects@[i] == #[trigger] g0.objects@[i]);
            assert(forall|i: int|
                0 <= i < g0.sectors@.len() ==> g.sectors@[i] == #[trigger] g0.sectors@[i]);
            match parent {
                Some(p) => {
                    assert(obj_with(g0.objects@, p, GalaxyObjectType::Sector));
                    assert(0 < p < s.id);
                },
                None => {},
            }
        }
    }
    s
}

/// Generate one sector under the requested parent and fill it. The
/// whole step is all-or-nothing: a missing parent is rejected before
/// anything is written.
pub fn generate_star_sector(g: &mut Galaxy, stars: u64, radius: u64, parent: Option<i32>) -> (r:
    Result<StarSector, Error>)
    requires
        old(g).wf(),
        stars <= STARS_LIMIT,
        radius <= RADIUS_LIMIT,
        child_count(stars) >= 1,
        old(g).next_id < MAX_SAFE_ID,
        old(g).next_link_id <= MAX_SAFE_LINK_ID,
    ensures
        final(g).wf(),
        (r is Err) == (match parent {
            Some(p) => !sector_present(old(g).sectors@, p),
            None => false,
        }),
        match r {
            Ok(s) => expand_post(*old(g), *final(g), s, stars, radius, parent),
            Err(e) => e == Error::ConstraintViolation && *final(g) == *old(g),
        },
{
    if let Some(p) = parent {
        if !g.has_sector(p) {
            return Err(Error::ConstraintViolation);
        }
    }
    let ghost g0 = *old(g);
    let s = create_star_sector(g, parent);
    let ghost mid = *g;
    proof {
        assert(g.sectors@[g.sectors@.len() - 1] == s);
        assert(sector_present(g.sectors@, s.id));
    }
    fill_star_sector(g, s.id, stars, radius);
    proof {
        let count = child_count(stars);
        let t = child_kind(stars);
        let first = (g0.next_id + 1) as i32;
        assert(mid.next_id == first);
        assert(g.objects@ == g0.objects@.push(
            GalaxyObject { id: g0.next_id, obj_type: GalaxyObjectType::Sector },
        ) + batch_objects(first, count, t));
        if star_branch(stars) {
            let added = choose|added: Seq<StarSystem>|
                g.systems@ == mid.systems@ + added && systems_batch_ok(added, first, count, s.id);
            assert(g.systems@ == g0.systems@ + added && systems_batch_ok(
                added,
                first,
                count,
                s.id,
            ));
        }
        let ladd = choose|ladd: Seq<StarLink>|
            g.links@ == mid.links@ + ladd && links_batch_ok(
                ladd,
                mid.next_link_id,
                mid.next_id,
                count,
                t,
                star_branch(stars),
                link_target(stars),
            ) && g.next_link_id == mid.next_link_id + ladd.len();
        assert(g.links@ == g0.links@ + ladd && links_batch_ok(
            ladd,
            g0.next_link_id,
            first,
            count,
            t,
            star_branch(stars),
            link_target(stars),
        ) && g.next_link_id == g0.next_link_id + ladd.len());
        assert(expand_post(g0, *g, s, stars, radius, parent));
    }
    Ok(s)
}

/// Create one deferred sector future (and its galaxy object) under an
/// existing parent sector.
pub fn create_star_sector_future(g: &mut Galaxy, parent: i32, stars: u64, radius: u64) -> (r:
    Result<StarSectorFuture, Error>)
    requires
        old(g).wf(),
        500 <= stars <= STARS_LIMIT,
        radius <= RADIUS_LIMIT,
        old(g).next_id < i32::MAX,
    ensures
        final(g).wf(),
        (r is Err) == !sector_present(old(g).sectors@, parent),
        match r {
            Ok(f) => f == (StarSectorFuture {
                id: old(g).next_id,
                parent_id: parent,
                radius,
                stars,
            }) && final(g).futures@ == old(g).futures@.push(f) && final(g).objects@ == old(
                g,
            ).objects@.push(
                GalaxyObject { id: old(g).next_id, obj_type: GalaxyObjectType::SectorFuture },
            ) && final(g).next_id == old(g).next_id + 1 && final(g).sectors@ == old(g).sectors@
                && final(g).systems@ == old(g).systems@ && final(g).links@ == old(g).links@
                && final(g).next_link_id == old(g).next_link_id,
            Err(e) => e == Error::ConstraintViolation && *final(g) == *old(g),
        },
{
    if !g.has_sector(parent) {
        return Err(Error::ConstraintViolation);
    }
    let ghost g0 = *old(g);
    let obj = GalaxyObject { id: g.next_id, obj_type: GalaxyObjectType::SectorFuture };
    g.objects.push(obj);
    let f = StarSectorFuture { id: g.next_id, parent_id: parent, radius, stars };
    g.futures.push(f);
    g.next_id = g.next_id + 1;
    proof {
        assert(g.objects@[g0.objects@.len() as int] == obj);
        assert(g.futures@[g0.futures@.len() as int] == f);
        assert(obj_with(g.objects@, f.id, GalaxyObjectType::SectorFuture));
        assert(future_present(g.futures@, f.id));
        assert forall|id: i32, tt: GalaxyObjectType|
            obj_with(g0.objects@, id, tt) implies obj_with(g.objects@, id, tt) by {
            let i = choose|i: int|
                0 <= i < g0.objects@.len() && g0.objects@[i].id == id && g0.objects@[i].obj_type
                    == tt;
            assert(g.objects@[i] == g0.objects@[i]);
        }
        assert forall|id: i32|
            future_present(g0.futures@, id) implies future_present(g.futures@, id) by {
            let i = choose|i: int| 0 <= i < g0.futures@.len() && g0.futures@[i].id == id;
            assert(g.futures@[i] == g0.futures@[i]);
        }
        assert(g.wf()) by {
            assert(forall|i: int|
                0 <= i < g0.objects@.len() ==> g.objects@[i] == #[trigger] g0.objects@[i]);
            assert(forall|i: int|
                0 <= i < g0.futures@.len() ==> g.futures@[i] == #[trigger] g0.futures@[i]);
            assert(obj_with(g0.objects@, parent, GalaxyObjectType::Sector));
            assert(0 < parent < f.id);
        }
    }
    Ok(f)
}


/// Look a future up by id.
pub fn find_future(g: &Galaxy, future_id: i32) -> (r: Option<StarSectorFuture>)
    requires
        g.wf(),
    ensures
        (r is Some) == future_present(g.futures@, future_id),
        match r {
            Some(f) => f == g.futures@[future_index_of(g.futures@, future_id)] && f.id
                == future_id,
            None => true,
        },
{
    let n = g.futures.len();
    let mut i: usize = 0;
    while i < n
        invariant
            g.wf(),
            n == g.futures@.len(),
            i <= n,
            forall|k: int| 0 <= k < i ==> g.futures@[k].id != future_id,
        decreases n - i,
    {
        if g.futures[i].id == future_id {
            proof {
                let j = future_index_of(g.futures@, future_id);
                assert(g.futures@[i as int].id == future_id);
                assert(future_present(g.futures@, future_id));
                assert(0 <= j < g.futures@.len() && g.futures@[j].id == future_id);
                assert(j == i as int);
            }
            return Some(g.futures[i]);
        }
        i += 1;
    }
    None
}

/// Delete every link that touches this id.
fn purge_links(g: &mut Galaxy, id: i32)
    ensures
        final(g).links@ == links_without(old(g).links@, id),
        final(g).objects@ == old(g).objects@,
        final(g).sectors@ == old(g).sectors@,
        final(g).futures@ == old(g).futures@,
        final(g).systems@ == old(g).systems@,
        final(g).next_id == old(g).next_id,
        final(g).next_link_id == old(g).next_link_id,
{
    let ghost g0 = *old(g);
    let mut kept: Vec<StarLink> = Vec::new();
    let n = g.links.len();
    let mut i: usize = 0;
    proof {
        assert(g0.links@.take(0) =~= Seq::<StarLink>::empty());
        crate::store::lemma_filter_drop_all(
            g0.links@.take(0),
            (|l: StarLink| !link_touches(l, id)),
        );
    }
    while i < n
        invariant
            n == g.links@.len(),
            g.links@ == g0.links@,
            i <= n,
            kept@ == links_without(g0.links@.take(i as int), id),
            g.objects@ == g0.objects@,
            g.sectors@ == g0.sectors@,
            g.futures@ == g0.futures@,
            g.systems@ == g0.systems@,
            g.next_id == g0.next_id,
            g.next_link_id == g0.next_link_id,
        decreases n - i,
    {
        let l = g.links[i];
        if !(l.a_id == id || l.b_id == id) {
            kept.push(l);
        }
        i += 1;
        proof {
            assert(g0.links@.take(i as int) =~= g0.links@.take(i as int - 1).push(l));
            crate::store::lemma_links_without_push(g0.links@.take(i as int - 1), l, id);
        }
    }
    proof {
        assert(g0.links@.take(n as int) =~= g0.links@);
    }
    g.links = kept;
}

/// Delete the future row carrying this id.
fn remove_future_row(g: &mut Galaxy, future_id: i32)
    requires
        forall|i: int, j: int|
            0 <= i < j < old(g).futures@.len() ==> old(g).futures@[i].id != old(
                g,
            ).futures@[j].id,
        future_present(old(g).futures@, future_id),
    ensures
        final(g).futures@ == old(g).futures@.remove(
            future_index_of(old(g).futures@, future_id),
        ),
        final(g).objects@ == old(g).objects@,
        final(g).sectors@ == old(g).sectors@,
        final(g).systems@ == old(g).systems@,
        final(g).links@ == old(g).links@,
        final(g).next_id == old(g).next_id,
        final(g).next_link_id == old(g).next_link_id,
{
    let n = g.futures.len();
    let mut i: usize = 0;
    while i < n
        invariant
            old(g) == g,
            forall|i: int, j: int|
                0 <= i < j < old(g).futures@.len() ==> old(g).futures@[i].id != old(
                    g,
                ).futures@[j].id,
            future_present(old(g).futures@, future_id),
            n == g.futures@.len(),
            i <= n,
            forall|k: int| 0 <= k < i ==> g.futures@[k].id != future_id,
        decreases n - i,
    {
        if g.futures[i].id == future_id {
            proof {
                let j = future_index_of(old(g).futures@, future_id);
                assert(0 <= j < g.futures@.len() && g.futures@[j].id == future_id);
                assert(j == i as int);
            }
            g.futures.remove(i);
            return;
        }
        i += 1;
    }
    proof {
        assert(!future_present(old(g).futures@, future_id));
    }
}

/// Flip the galaxy object carrying this id to the sector kind.
fn flip_object_to_sector(g: &mut Galaxy, id: i32)
    requires
        forall|i: int, j: int|
            0 <= i < j < old(g).objects@.len() ==> old(g).objects@[i].id != old(
                g,
            ).objects@[j].id,
        obj_present(old(g).objects@, id),
    ensures
        final(g).objects@ == old(g).objects@.update(
            obj_index_of(old(g).objects@, id),
            GalaxyObject { id, obj_type: GalaxyObjectType::Sector },
        ),
        final(g).sectors@ == old(g).sectors@,
        final(g).futures@ == old(g).futures@,
        final(g).systems@ == old(g).systems@,
        final(g).links@ == old(g).links@,
        final(g).next_id == old(g).next_id,
        final(g).next_link_id == old(g).next_link_id,
{
    let n = g.objects.len();
    let mut i: usize = 0;
    while i < n
        invariant
            old(g) == g,
            forall|i: int, j: int|
                0 <= i < j < old(g).objects@.len() ==> old(g).objects@[i].id != old(
                    g,
                ).objects@[j].id,
            obj_present(old(g).objects@, id),
            n == g.objects@.len(),
            i <= n,
            forall|k: int| 0 <= k < i ==> g.objects@[k].id != id,
        decreases n - i,
    {
        if g.objects[i].id == id {
            proof {
                let j = obj_index_of(old(g).objects@, id);
                assert(0 <= j < g.objects@.len() && g.objects@[j].id == id);
                assert(j == i as int);
            }
            g.objects.set(i, GalaxyObject { id, obj_type: GalaxyObjectType::Sector });
            return;
        }
        i += 1;
    }
    proof {
        assert(!obj_present(old(g).objects@, id));
    }
}

/// What one fulfillment does to the store: links into the former future
/// purged, its row deleted, its object flipped to the sector kind, a
/// sector row inserted under the same id, and that sector filled.
pub open spec fn fulfill_post(pre: Galaxy, post: Galaxy, fid: i32, s: StarSector) -> bool {
    let fi = future_index_of(pre.futures@, fid);
    let f = pre.futures@[fi];
    let oi = obj_index_of(pre.objects@, fid);
    let count = child_count(f.stars);
    let t = child_kind(f.stars);
    &&& s.id == fid
    &&& s.parent_id == Some(f.parent_id)
    &&& post.sectors@ == pre.sectors@.push(s)
    &&& post.next_id == pre.next_id + count
    &&& post.objects@ == pre.objects@.update(
        oi,
        GalaxyObject { id: fid, obj_type: GalaxyObjectType::Sector },
    ) + batch_objects(pre.next_id, count, t)
    &&& (star_branch(f.stars) ==> post.futures@ == pre.futures@.remove(fi) && exists|
        added: Seq<StarSystem>,
    |
        post.systems@ == pre.systems@ + added && systems_batch_ok(
            added,
            pre.next_id,
            count,
            fid,
        ))
    &&& (!star_branch(f.stars) ==> post.systems@ == pre.systems@ && post.futures@
        == pre.futures@.remove(fi) + batch_futures(
        pre.next_id,
        count,
        fid,
        sub_stars_of(f.stars),
        sub_radius_of(f.radius),
    ))
    &&& exists|ladd: Seq<StarLink>|
        post.links@ == links_without(pre.links@, fid) + ladd && links_batch_ok(
            ladd,
            pre.next_link_id,
            pre.next_id,
            count,
            t,
            star_branch(f.stars),
            link_target(f.stars),
        ) && post.next_link_id == pre.next_link_id + ladd.len()
    &&& !future_present(post.futures@, fid)
}

/// The store between the row surgery of a fulfillment and the fill of
/// the new sector stays well formed.
#[verifier::rlimit(100)]
proof fn lemma_fulfill_mid_wf(pre: Galaxy, mid: Galaxy, fid: i32, s: StarSector)
    requires
        pre.wf(),
        future_present(pre.futures@, fid),
        s.id == fid,
        s.parent_id == Some(pre.futures@[future_index_of(pre.futures@, fid)].parent_id),
        mid.objects@ == pre.objects@.update(
            obj_index_of(pre.objects@, fid),
            GalaxyObject { id: fid, obj_type: GalaxyObjectType::Sector },
        ),
        mid.sectors@ == pre.sectors@.push(s),
        mid.futures@ == pre.futures@.remove(future_index_of(pre.futures@, fid)),
        mid.systems@ == pre.systems@,
        mid.links@ == links_without(pre.links@, fid),
        mid.next_id == pre.next_id,
        mid.next_link_id == pre.next_link_id,
    ensures
        mid.wf(),
        sector_present(mid.sectors@, fid),
        !future_present(mid.futures@, fid),
{
    let fi = future_index_of(pre.futures@, fid);
    let oi = obj_index_of(pre.objects@, fid);
    let f = pre.futures@[fi];
    let keep = |l: StarLink| !link_touches(l, fid);
    assert(0 <= fi < pre.futures@.len() && pre.futures@[fi].id == fid);
    assert(obj_with(pre.objects@, fid, GalaxyObjectType::SectorFuture));
    assert(obj_present(pre.objects@, fid));
    assert(0 <= oi < pre.objects@.len() && pre.objects@[oi].id == fid);
    assert(pre.objects@[oi].obj_type == GalaxyObjectType::SectorFuture) by {
        let w = choose|w: int|
            0 <= w < pre.objects@.len() && pre.objects@[w].id == fid && pre.objects@[w].obj_type
                == GalaxyObjectType::SectorFuture;
        assert(w == oi);
    }
    assert(mid.sectors@[pre.sectors@.len() as int] == s);
    assert(sector_present(mid.sectors@, fid));

    // the former future was no sector, so the pushed row is fresh
    assert(!sector_present(pre.sectors@, fid)) by {
        if sector_present(pre.sectors@, fid) {
            let w = choose|w: int| 0 <= w < pre.sectors@.len() && pre.sectors@[w].id == fid;
            assert(obj_with(pre.objects@, fid, GalaxyObjectType::Sector));
            let v = choose|v: int|
                0 <= v < pre.objects@.len() && pre.objects@[v].id == fid
                    && pre.objects@[v].obj_type == GalaxyObjectType::Sector;
            assert(v == oi);
        }
    }
    // no remaining future carries the id
    assert forall|k: int| 0 <= k < mid.futures@.len() implies (#[trigger] mid.futures@[k]).id
        != fid by {
        if k < fi {
            assert(mid.futures@[k] == pre.futures@[k]);
        } else {
            assert(mid.futures@[k] == pre.futures@[k + 1]);
        }
    }
    assert(!future_present(mid.futures@, fid));

    // membership transfers
    assert forall|id: i32, tt: GalaxyObjectType|
        obj_with(pre.objects@, id, tt) && id != fid implies obj_with(mid.objects@, id, tt) by {
        let w = choose|w: int|
            0 <= w < pre.objects@.len() && pre.objects@[w].id == id && pre.objects@[w].obj_type
                == tt;
        assert(w != oi);
        assert(mid.objects@[w] == pre.objects@[w]);
    }
    assert forall|id: i32|
        sector_present(pre.sectors@, id) implies sector_present(mid.sectors@, id) by {
        let w = choose|w: int| 0 <= w < pre.sectors@.len() && pre.sectors@[w].id == id;
        assert(mid.sectors@[w] == pre.sectors@[w]);
    }
    assert forall|id: i32|
        future_present(pre.futures@, id) && id != fid implies future_present(
        mid.futures@,
        id,
    ) by {
        let w = choose|w: int| 0 <= w < pre.futures@.len() && pre.futures@[w].id == id;
        if w < fi {
            assert(mid.futures@[w] == pre.futures@[w]);
        } else {
            assert(w != fi);
            assert(mid.futures@[w - 1] == pre.futures@[w]);
        }
    }
    // ids of one relation can only carry one kind
    assert forall|id: i32|
        future_present(pre.futures@, id) implies id == fid || !sector_present(pre.sectors@, id)
        && !system_present(pre.systems@, id) by {
        if sector_present(pre.sectors@, id) {
            let a = choose|a: int|
                0 <= a < pre.objects@.len() && pre.objects@[a].id == id && pre.objects@[a].obj_type
                    == GalaxyObjectType::Sector;
            let b = choose|b: int|
                0 <= b < pre.objects@.len() && pre.objects@[b].id == id && pre.objects@[b].obj_type
                    == GalaxyObjectType::SectorFuture;
            assert(a == b);
        }
        if system_present(pre.systems@, id) {
            let a = choose|a: int|
                0 <= a < pre.objects@.len() && pre.objects@[a].id == id && pre.objects@[a].obj_type
                    == GalaxyObjectType::System;
            let b = choose|b: int|
                0 <= b < pre.objects@.len() && pre.objects@[b].id == id && pre.objects@[b].obj_type
                    == GalaxyObjectType::SectorFuture;
            assert(a == b);
        }
    }

    // links of the purged relation still resolve
    crate::store::lemma_filter_elements(pre.links@, keep);
    crate::store::lemma_filter_distinct_keys(pre.links@, keep, |l: StarLink| l.id);
    assert(mid.links@ == pre.links@.filter(keep));
    assert forall|i: int|
        0 <= i < mid.links@.len() implies 0 < (#[trigger] mid.links@[i]).id < mid.next_link_id
            && obj_with(mid.objects@, mid.links@[i].a_id, mid.links@[i].a_obj_type) && obj_with(
            mid.objects@,
            mid.links@[i].b_id,
            mid.links@[i].b_obj_type,
        ) && !link_touches(mid.links@[i], fid) by {
        assert(pre.links@.contains(mid.links@[i]));
        let w = choose|w: int| 0 <= w < pre.links@.len() && pre.links@[w] == mid.links@[i];
        assert(pre.links@.filter(keep)[i] == mid.links@[i]);
        assert(keep(mid.links@[i])) by {
            pre.links@.lemma_filter_pred(keep, i);
        }
        assert(mid.links@[i].a_id != fid && mid.links@[i].b_id != fid);
    }

    assert(mid.wf()) by {
        assert forall|i: int, j: int|
            0 <= i < j < mid.objects@.len() implies mid.objects@[i].id != mid.objects@[j].id by {
            assert(mid.objects@[i].id == pre.objects@[i].id);
            assert(mid.objects@[j].id == pre.objects@[j].id);
        }
        assert forall|i: int, j: int|
            0 <= i < j < mid.sectors@.len() implies mid.sectors@[i].id != mid.sectors@[j].id by {
            if j < pre.sectors@.len() {
                assert(mid.sectors@[i] == pre.sectors@[i]);
                assert(mid.sectors@[j] == pre.sectors@[j]);
            } else {
                assert(mid.sectors@[j] == s);
                assert(mid.sectors@[i] == pre.sectors@[i]);
                assert(!sector_present(pre.sectors@, fid));
            }
        }
        assert forall|i: int, j: int|
            0 <= i < j < mid.futures@.len() implies mid.futures@[i].id != mid.futures@[j].id by {
            let pi = if i < fi {
                i
            } else {
                i + 1
            };
            let pj = if j < fi {
                j
            } else {
                j + 1
            };
            assert(mid.futures@[i] == pre.futures@[pi]);
            assert(mid.futures@[j] == pre.futures@[pj]);
        }
        assert(forall|i: int|
            0 <= i < mid.objects@.len() ==> 0 < (#[trigger] mid.objects@[i]).id < mid.next_id);
        // kinds still match on both sides
        assert forall|i: int|
            0 <= i < mid.sectors@.len() implies obj_with(
            mid.objects@,
            (#[trigger] mid.sectors@[i]).id,
            GalaxyObjectType::Sector,
        ) by {
            if i < pre.sectors@.len() {
                assert(mid.sectors@[i] == pre.sectors@[i]);
                assert(obj_with(pre.objects@, pre.sectors@[i].id, GalaxyObjectType::Sector));
                assert(pre.sectors@[i].id != fid);
            } else {
                assert(mid.sectors@[i] == s);
                assert(mid.objects@[oi] == (GalaxyObject {
                    id: fid,
                    obj_type: GalaxyObjectType::Sector,
                }));
            }
        }
        assert forall|i: int|
            0 <= i < mid.futures@.len() implies obj_with(
            mid.objects@,
            (#[trigger] mid.futures@[i]).id,
            GalaxyObjectType::SectorFuture,
        ) by {
            let pi = if i < fi {
                i
            } else {
                i + 1
            };
            assert(mid.futures@[i] == pre.futures@[pi]);
            assert(obj_with(pre.objects@, pre.futures@[pi].id, GalaxyObjectType::SectorFuture));
            assert(mid.futures@[i].id != fid);
        }
        assert forall|i: int|
            0 <= i < mid.systems@.len() implies obj_with(
            mid.objects@,
            (#[trigger] mid.systems@[i]).id,
            GalaxyObjectType::System,
        ) by {
            assert(obj_with(pre.objects@, pre.systems@[i].id, GalaxyObjectType::System));
            assert(mid.systems@[i].id != fid) by {
                if mid.systems@[i].id == fid {
                    let a = choose|a: int|
                        0 <= a < pre.objects@.len() && pre.objects@[a].id == fid
                            && pre.objects@[a].obj_type == GalaxyObjectType::System;
                    assert(a == oi);
                }
            }
        }
        assert forall|i: int|
            0 <= i < mid.objects@.len() implies match (#[trigger] mid.objects@[i]).obj_type {
            GalaxyObjectType::Sector => sector_present(mid.sectors@, mid.objects@[i].id),
            GalaxyObjectType::SectorFuture => future_present(mid.futures@, mid.objects@[i].id),
            GalaxyObjectType::System => system_present(mid.systems@, mid.objects@[i].id),
        } by {
            if i == oi {
                assert(mid.objects@[i].obj_type == GalaxyObjectType::Sector);
                assert(sector_present(mid.sectors@, fid));
            } else {
                assert(mid.objects@[i] == pre.objects@[i]);
                assert(mid.objects@[i].id != fid);
                match pre.objects@[i].obj_type {
                    GalaxyObjectType::Sector => {
                        assert(sector_present(pre.sectors@, pre.objects@[i].id));
                    },
                    GalaxyObjectType::SectorFuture => {
                        assert(future_present(pre.futures@, pre.objects@[i].id));
                    },
                    GalaxyObjectType::System => {
                        assert(system_present(pre.systems@, pre.objects@[i].id));
                    },
                }
            }
        }
        // tree shape
        assert forall|i: int|
            0 <= i < mid.sectors@.len() implies match (#[trigger] mid.sectors@[i]).parent_id {
            Some(p) => sector_present(mid.sectors@, p) && 0 < p < mid.sectors@[i].id,
            None => true,
        } by {
            if i < pre.sectors@.len() {
                assert(mid.sectors@[i] == pre.sectors@[i]);
            } else {
                assert(mid.sectors@[i] == s);
                assert(sector_present(pre.sectors@, f.parent_id));
                assert(0 < f.parent_id < fid);
            }
        }
        assert forall|i: int|
            0 <= i < mid.futures@.len() implies sector_present(
            mid.sectors@,
            (#[trigger] mid.futures@[i]).parent_id,
        ) && 0 < mid.futures@[i].parent_id < mid.futures@[i].id by {
            let pi = if i < fi {
                i
            } else {
                i + 1
            };
            assert(mid.futures@[i] == pre.futures@[pi]);
        }
        assert forall|i: int|
            0 <= i < mid.systems@.len() implies sector_present(
            mid.sectors@,
            (#[trigger] mid.systems@[i]).sector_id,
        ) && 0 < mid.systems@[i].sector_id < mid.systems@[i].id by {
            assert(mid.systems@[i] == pre.systems@[i]);
        }
        assert forall|i: int|
            0 <= i < mid.futures@.len() implies 500 <= (#[trigger] mid.futures@[i]).stars
                <= STARS_LIMIT && mid.futures@[i].radius <= RADIUS_LIMIT by {
            let pi = if i < fi {
                i
            } else {
                i + 1
            };
            assert(mid.futures@[i] == pre.futures@[pi]);
        }
    }
}

/// Fulfill a deferred future: purge its links, delete the row, flip the
/// shared identity to the sector kind, insert the sector under the same
/// id, and fill it. Fails with NotFound when the id does not currently
/// reference a future, fulfilling the same id twice included; failure
/// leaves the store untouched.
pub fn fulfill_star_sector_future(g: &mut Galaxy, future_id: i32) -> (r: Result<StarSector, Error>)
    requires
        old(g).wf(),
        old(g).next_id <= MAX_SAFE_ID,
        old(g).next_link_id <= MAX_SAFE_LINK_ID,
    ensures
        final(g).wf(),
        (r is Err) == !future_present(old(g).futures@, future_id),
        match r {
            Ok(s) => fulfill_post(*old(g), *final(g), future_id, s),
            Err(e) => e == Error::NotFound && *final(g) == *old(g),
        },
{
    let fut = match find_future(g, future_id) {
        None => {
            return Err(Error::NotFound);
        },
        Some(f) => f,
    };
    let ghost g0 = *old(g);
    proof {
        assert(obj_with(g0.objects@, future_id, GalaxyObjectType::SectorFuture));
        assert(obj_present(g0.objects@, future_id));
    }
    purge_links(g, future_id);
    remove_future_row(g, future_id);
    flip_object_to_sector(g, future_id);
    let s = StarSector { id: future_id, parent_id: Some(fut.parent_id) };
    g.sectors.push(s);
    let ghost mid = *g;
    proof {
        lemma_fulfill_mid_wf(g0, mid, future_id, s);
        assert(500 <= fut.stars <= STARS_LIMIT && fut.radius <= RADIUS_LIMIT);
        assert(child_count(fut.stars) >= 1);
    }
    fill_star_sector(g, future_id, fut.stars, fut.radius);
    proof {
        let fi = future_index_of(g0.futures@, future_id);
        let count = child_count(fut.stars);
        let t = child_kind(fut.stars);
        if star_branch(fut.stars) {
            let added = choose|added: Seq<StarSystem>|
                g.systems@ == mid.systems@ + added && systems_batch_ok(
                    added,
                    mid.next_id,
                    count,
                    future_id,
                );
            assert(g.systems@ == g0.systems@ + added && systems_batch_ok(
                added,
                g0.next_id,
                count,
                future_id,
            ));
            assert(!future_present(g.futures@, future_id));
        } else {
            assert forall|k: int| 0 <= k < g.futures@.len() implies (#[trigger] g.futures@[k]).id
                != future_id by {
                let pre_part = g0.futures@.remove(fi);
                if k < pre_part.len() {
                    assert(g.futures@[k] == pre_part[k]);
                    assert(!future_present(mid.futures@, future_id));
                } else {
                    assert(g.futures@[k] == batch_futures(
                        g0.next_id,
                        count,
                        future_id,
                        sub_stars_of(fut.stars),
                        sub_radius_of(fut.radius),
                    )[k - pre_part.len()]);
                    assert(g.futures@[k].id == (g0.next_id + (k - pre_part.len())) as i32);
                    assert(0 < future_id < g0.next_id);
                }
            }
            assert(!future_present(g.futures@, future_id));
        }
        let ladd = choose|ladd: Seq<StarLink>|
            g.links@ == mid.links@ + ladd && links_batch_ok(
                ladd,
                mid.next_link_id,
                mid.next_id,
                count,
                t,
                star_branch(fut.stars),
                link_target(fut.stars),
            ) && g.next_link_id == mid.next_link_id + ladd.len();
        assert(g.links@ == links_without(g0.links@, future_id) + ladd && links_batch_ok(
            ladd,
            g0.next_link_id,
            g0.next_id,
            count,
            t,
            star_branch(fut.stars),
            link_target(fut.stars),
        ) && g.next_link_id == g0.next_link_id + ladd.len());
        assert(fulfill_post(g0, *g, future_id, s));
    }
    Ok(s)
}


/// An id the deletion of `root` destroys: a subtree sector, or a future
/// or system hanging under a subtree sector.
pub open spec fn doomed(pre: Galaxy, root: i32, x: i32) -> bool {
    ||| in_subtree(pre.sectors@, root, x)
    ||| exists|i: int|
        0 <= i < pre.futures@.len() && (#[trigger] pre.futures@[i]).id == x && in_subtree(
            pre.sectors@,
            root,
            pre.futures@[i].parent_id,
        )
    ||| exists|i: int|
        0 <= i < pre.systems@.len() && (#[trigger] pre.systems@[i]).id == x && in_subtree(
            pre.sectors@,
            root,
            pre.systems@[i].sector_id,
        )
}

/// What one cascade deletion does to the store: exactly the subtree
/// sectors, their futures and systems, the doomed objects and every
/// link touching a doomed id are gone; everything else stays.
pub open spec fn delete_post(pre: Galaxy, post: Galaxy, root: i32) -> bool {
    &&& post.sectors@ == pre.sectors@.filter(
        |row: StarSector| !in_subtree(pre.sectors@, root, row.id),
    )
    &&& post.futures@ == pre.futures@.filter(
        |row: StarSectorFuture| !in_subtree(pre.sectors@, root, row.parent_id),
    )
    &&& post.systems@ == pre.systems@.filter(
        |row: StarSystem| !in_subtree(pre.sectors@, root, row.sector_id),
    )
    &&& post.objects@ == pre.objects@.filter(|o: GalaxyObject| !doomed(pre, root, o.id))
    &&& post.links@ == pre.links@.filter(
        |l: StarLink| !doomed(pre, root, l.a_id) && !doomed(pre, root, l.b_id),
    )
    &&& post.next_id == pre.next_id
    &&& post.next_link_id == pre.next_link_id
}

/// Whether the id list holds this id.
fn ids_contain(v: &Vec<i32>, x: i32) -> (r: bool)
    ensures
        r == v@.contains(x),
{
    let n = v.len();
    let mut i: usize = 0;
    while i < n
        invariant
            n == v@.len(),
            i <= n,
            forall|k: int| 0 <= k < i ==> v@[k] != x,
        decreases n - i,
    {
        if v[i] == x {
            return true;
        }
        i += 1;
    }
    false
}

/// The ids of every sector of the subtree rooted at `root`, the root
/// included, gathered with an explicit worklist rather than call-stack
/// recursion.
#[verifier::rlimit(100)]
fn collect_subtree(g: &Galaxy, root: i32) -> (subtree: Vec<i32>)
    requires
        g.wf(),
        sector_present(g.sectors@, root),
    ensures
        forall|x: i32| #[trigger] subtree@.contains(x) == in_subtree(g.sectors@, root, x),
{
    let mut collected: Vec<i32> = Vec::new();
    let mut work: Vec<i32> = Vec::new();
    work.push(root);
    proof {
        assert(work@[0] == root);
        assert(work@.contains(root));
    }
    while work.len() > 0
        invariant
            g.wf(),
            sector_present(g.sectors@, root),
            forall|k: int|
                0 <= k < collected@.len() ==> in_subtree(g.sectors@, root, #[trigger] collected@[k])
                    && sector_present(g.sectors@, collected@[k]),
            forall|k: int|
                0 <= k < work@.len() ==> in_subtree(g.sectors@, root, #[trigger] work@[k])
                    && sector_present(g.sectors@, work@[k]),
            forall|i: int, j: int| 0 <= i < j < collected@.len() ==> collected@[i] != collected@[j],
            forall|i: int, j: int| 0 <= i < j < work@.len() ==> work@[i] != work@[j],
            forall|i: int, j: int|
                0 <= i < collected@.len() && 0 <= j < work@.len() ==> collected@[i] != work@[j],
            collected@.contains(root) || work@.contains(root),
            forall|k: int|
                0 <= k < collected@.len() ==> #[trigger] collected@[k] == root || (match parent_of(
                    g.sectors@,
                    collected@[k],
                ) {
                    Some(p) => collected@.take(k).contains(p),
                    None => false,
                }),
            forall|k: int|
                0 <= k < work@.len() ==> #[trigger] work@[k] == root || (match parent_of(
                    g.sectors@,
                    work@[k],
                ) {
                    Some(p) => collected@.contains(p),
                    None => false,
                }),
            forall|i: int|
                0 <= i < g.sectors@.len() && (match (#[trigger] g.sectors@[i]).parent_id {
                    Some(p) => collected@.contains(p),
                    None => false,
                }) ==> collected@.contains(g.sectors@[i].id) || work@.contains(g.sectors@[i].id),
        decreases g.sectors@.len() - collected@.len(),
    {
        let ghost collected0 = collected@;
        let ghost work_full = work@;
        let w = match work.pop() {
            Some(x) => x,
            None => root,
        };
        proof {
            assert(work_full.drop_last().push(w) =~= work_full);
            assert(forall|k: int| 0 <= k < work@.len() ==> work@[k] == work_full[k]);
            crate::store::lemma_drop_last_contains(work_full);
        }
        collected.push(w);
        let ghost work0 = work@;
        proof {
            crate::store::lemma_push_contains(collected0, w);
            assert(collected@.take(collected@.len() - 1) =~= collected0);
            assert(forall|k: int|
                0 <= k < collected0.len() ==> #[trigger] collected@[k] == collected0[k]);
            assert(forall|k: int|
                0 <= k < collected0.len() ==> collected@.take(k) =~= collected0.take(k));
            assert(collected@[collected@.len() - 1] == w);
            assert(collected@.contains(w));
            assert(collected@.contains(root) || work@.contains(root)) by {
                if collected0.contains(root) {
                    assert(collected@.contains(root));
                } else if work_full.contains(root) {
                    assert(work@.contains(root) || root == w);
                }
            }
        }
        let n = g.sectors.len();
        let mut i: usize = 0;
        while i < n
            invariant
                g.wf(),
                sector_present(g.sectors@, root),
                n == g.sectors@.len(),
                i <= n,
                collected@ == collected0.push(w),
                in_subtree(g.sectors@, root, w),
                sector_present(g.sectors@, w),
                !collected0.contains(w),
                !work0.contains(w),
                work0.len() <= work@.len(),
                forall|k: int| 0 <= k < work0.len() ==> #[trigger] work@[k] == work0[k],
                forall|k: int|
                    work0.len() <= k < work@.len() ==> parent_of(g.sectors@, #[trigger] work@[k])
                        == Some(w) && w < work@[k],
                forall|k: int|
                    work0.len() <= k < work@.len() ==> exists|j: int|
                        0 <= j < i && g.sectors@[j].id == #[trigger] work@[k],
                forall|k: int|
                    0 <= k < collected@.len() ==> in_subtree(
                        g.sectors@,
                        root,
                        #[trigger] collected@[k],
                    ) && sector_present(g.sectors@, collected@[k]),
                forall|k: int|
                    0 <= k < work@.len() ==> in_subtree(g.sectors@, root, #[trigger] work@[k])
                        && sector_present(g.sectors@, work@[k]),
                forall|i2: int, j: int|
                    0 <= i2 < j < collected@.len() ==> collected@[i2] != collected@[j],
                forall|i2: int, j: int| 0 <= i2 < j < work@.len() ==> work@[i2] != work@[j],
                forall|i2: int, j: int|
                    0 <= i2 < collected@.len() && 0 <= j < work@.len() ==> collected@[i2]
                        != work@[j],
                collected@.contains(root) || work@.contains(root),
                forall|k: int|
                    0 <= k < collected@.len() ==> #[trigger] collected@[k] == root || (
                    match parent_of(g.sectors@, collected@[k]) {
                        Some(p) => collected@.take(k).contains(p),
                        None => false,
                    }),
                forall|k: int|
                    0 <= k < work0.len() ==> #[trigger] work0[k] == root || (match parent_of(
                        g.sectors@,
                        work0[k],
                    ) {
                        Some(p) => collected0.contains(p),
                        None => false,
                    }),
                forall|j: int|
                    0 <= j < g.sectors@.len() && (match (#[trigger] g.sectors@[j]).parent_id {
                        Some(p) => collected0.contains(p) || (p == w && j < i),
                        None => false,
                    }) ==> collected@.contains(g.sectors@[j].id) || work@.contains(
                        g.sectors@[j].id,
                    ),
            decreases n - i,
        {
            let row = g.sectors[i];
            let is_child = match row.parent_id {
                Some(p) => p == w,
                None => false,
            };
            if is_child {
                let c = row.id;
                proof {
                    // the row pins down the child's parent
                    let si = sector_index_of(g.sectors@, c);
                    assert(sector_present(g.sectors@, c));
                    assert(0 <= si < g.sectors@.len() && g.sectors@[si].id == c);
                    assert(si == i as int);
                    assert(parent_of(g.sectors@, c) == Some(w));
                    assert(0 < w < c);
                    assert(in_subtree(g.sectors@, root, c));
                    lemma_subtree_ge(g.sectors@, root, w);
                    assert(c != root);
                    // the child is fresh: nothing listed has w for a parent yet
                    assert(!collected@.contains(c)) by {
                        if collected@.contains(c) {
                            let k = choose|k: int|
                                0 <= k < collected@.len() && collected@[k] == c;
                            assert(collected@.take(k).contains(w));
                            let m = choose|m: int|
                                0 <= m < k && collected@.take(k)[m] == w;
                            assert(collected@[m] == w && m < collected@.len() - 1);
                            assert(collected0[m] == w);
                        }
                    }
                    assert(!work@.contains(c)) by {
                        if work@.contains(c) {
                            let k = choose|k: int| 0 <= k < work@.len() && work@[k] == c;
                            if k < work0.len() {
                                assert(work0[k] == c);
                                assert(match parent_of(g.sectors@, c) {
                                    Some(p) => collected0.contains(p),
                                    None => false,
                                });
                                assert(collected0.contains(w));
                            } else {
                                let j = choose|j: int|
                                    0 <= j < i && g.sectors@[j].id == work@[k];
                                assert(g.sectors@[j].id == c && j != i as int);
                            }
                        }
                    }
                }
                proof {
                    crate::store::lemma_push_contains(work@, c);
                }
                work.push(c);
            }
            i += 1;
        }
        proof {
            // the measure stays in range: all collected ids are distinct
            // sector ids
            lemma_distinct_sector_ids_bound(collected@, g.sectors@);
        }
    }
    proof {
        assert forall|x: i32| in_subtree(g.sectors@, root, x) implies collected@.contains(x) by {
            let member = |y: i32| collected@.contains(y);
            assert(member(root));
            assert forall|c: i32, p: i32|
                #![trigger member(p), parent_of(g.sectors@, c)]
                member(p) && parent_of(g.sectors@, c) == Some(p) && 0 <= p < c implies member(
                c,
            ) by {
                assert(sector_present(g.sectors@, c));
                let si = sector_index_of(g.sectors@, c);
                assert(0 <= si < g.sectors@.len() && g.sectors@[si].id == c);
                assert(g.sectors@[si].parent_id == Some(p));
                assert(collected@.contains(g.sectors@[si].id) || work@.contains(
                    g.sectors@[si].id,
                ));
            }
            lemma_subtree_closed(g.sectors@, root, member, x);
            assert(member(x));
        }
    }
    collected
}

/// Every id the deletion of `root` destroys: the subtree sector ids plus
/// the futures and systems hanging under them.
fn collect_doomed(g: &Galaxy, subtree: &Vec<i32>, root: i32) -> (r: Vec<i32>)
    requires
        forall|x: i32| #[trigger] subtree@.contains(x) == in_subtree(g.sectors@, root, x),
    ensures
        forall|x: i32| #[trigger] r@.contains(x) == doomed(*g, root, x),
{
    let mut r: Vec<i32> = Vec::new();
    let n0 = subtree.len();
    let mut i: usize = 0;
    while i < n0
        invariant
            n0 == subtree@.len(),
            i <= n0,
            r@ == subtree@.take(i as int),
        decreases n0 - i,
    {
        r.push(subtree[i]);
        i += 1;
        proof {
            assert(r@ =~= subtree@.take(i as int));
        }
    }
    proof {
        assert(r@ =~= subtree@);
        assert forall|k: int|
            0 <= k < r@.len() implies in_subtree(g.sectors@, root, #[trigger] r@[k]) by {
            assert(subtree@.contains(subtree@[k]));
        }
    }
    let nf = g.futures.len();
    let mut j: usize = 0;
    while j < nf
        invariant
            forall|x: i32| #[trigger] subtree@.contains(x) == in_subtree(g.sectors@, root, x),
            nf == g.futures@.len(),
            j <= nf,
            forall|x: i32| #[trigger] subtree@.contains(x) ==> r@.contains(x),
            forall|m: int|
                0 <= m < j && in_subtree(g.sectors@, root, (#[trigger] g.futures@[m]).parent_id)
                    ==> r@.contains(g.futures@[m].id),
            forall|k: int|
                0 <= k < r@.len() ==> in_subtree(g.sectors@, root, #[trigger] r@[k]) || exists|
                    m: int,
                |
                    0 <= m < g.futures@.len() && (#[trigger] g.futures@[m]).id == r@[k]
                        && in_subtree(g.sectors@, root, g.futures@[m].parent_id),
        decreases nf - j,
    {
        let f = g.futures[j];
        let ghost r0 = r@;
        if ids_contain(subtree, f.parent_id) {
            r.push(f.id);
            proof {
                assert(r@[r@.len() - 1] == f.id);
                assert(r@.contains(f.id));
            }
        }
        proof {
            assert forall|x: i32| r0.contains(x) implies r@.contains(x) by {
                let k = choose|k: int| 0 <= k < r0.len() && r0[k] == x;
                assert(r@[k] == x);
            }
            assert forall|x: i32| #[trigger] subtree@.contains(x) implies r@.contains(x) by {
                assert(r0.contains(x));
            }
        }
        j += 1;
    }
    let ns = g.systems.len();
    let mut q: usize = 0;
    while q < ns
        invariant
            forall|x: i32| #[trigger] subtree@.contains(x) == in_subtree(g.sectors@, root, x),
            ns == g.systems@.len(),
            q <= ns,
            forall|x: i32| #[trigger] subtree@.contains(x) ==> r@.contains(x),
            forall|m: int|
                0 <= m < g.futures@.len() && in_subtree(
                    g.sectors@,
                    root,
                    (#[trigger] g.futures@[m]).parent_id,
                ) ==> r@.contains(g.futures@[m].id),
            forall|m: int|
                0 <= m < q && in_subtree(g.sectors@, root, (#[trigger] g.systems@[m]).sector_id)
                    ==> r@.contains(g.systems@[m].id),
            forall|k: int| 0 <= k < r@.len() ==> doomed(*g, root, #[trigger] r@[k]),
        decreases ns - q,
    {
        let y = g.systems[q].id;
        let parent = g.systems[q].sector_id;
        let ghost r0 = r@;
        if ids_contain(subtree, parent) {
            r.push(y);
            proof {
                assert(r@[r@.len() - 1] == y);
                assert(r@.contains(y));
            }
        }
        proof {
            assert forall|x: i32| r0.contains(x) implies r@.contains(x) by {
                let k = choose|k: int| 0 <= k < r0.len() && r0[k] == x;
                assert(r@[k] == x);
            }
            assert forall|x: i32| #[trigger] subtree@.contains(x) implies r@.contains(x) by {
                assert(r0.contains(x));
            }
        }
        q += 1;
    }
    proof {
        assert forall|x: i32| #[trigger] r@.contains(x) == doomed(*g, root, x) by {
            if doomed(*g, root, x) {
                if in_subtree(g.sectors@, root, x) {
                    assert(subtree@.contains(x));
                    assert(r@.contains(x));
                } else if exists|m: int|
                    0 <= m < g.futures@.len() && (#[trigger] g.futures@[m]).id == x && in_subtree(
                        g.sectors@,
                        root,
                        g.futures@[m].parent_id,
                    ) {
                    let m = choose|m: int|
                        0 <= m < g.futures@.len() && (#[trigger] g.futures@[m]).id == x
                            && in_subtree(g.sectors@, root, g.futures@[m].parent_id);
                    assert(r@.contains(g.futures@[m].id));
                } else {
                    let m = choose|m: int|
                        0 <= m < g.systems@.len() && (#[trigger] g.systems@[m]).id == x
                            && in_subtree(g.sectors@, root, g.systems@[m].sector_id);
                    assert(r@.contains(g.systems@[m].id));
                }
            }
        }
    }
    r
}


/// One id never names rows of two different kinds.
pub(crate) proof fn lemma_kinds_exclusive(pre: Galaxy, id: i32)
    requires
        pre.wf(),
    ensures
        !(sector_present(pre.sectors@, id) && future_present(pre.futures@, id)),
        !(sector_present(pre.sectors@, id) && system_present(pre.systems@, id)),
        !(future_present(pre.futures@, id) && system_present(pre.systems@, id)),
{
    if sector_present(pre.sectors@, id) && future_present(pre.futures@, id) {
        let a = choose|a: int|
            0 <= a < pre.objects@.len() && pre.objects@[a].id == id && pre.objects@[a].obj_type
                == GalaxyObjectType::Sector;
        let b = choose|b: int|
            0 <= b < pre.objects@.len() && pre.objects@[b].id == id && pre.objects@[b].obj_type
                == GalaxyObjectType::SectorFuture;
        assert(a == b);
    }
    if sector_present(pre.sectors@, id) && system_present(pre.systems@, id) {
        let a = choose|a: int|
            0 <= a < pre.objects@.len() && pre.objects@[a].id == id && pre.objects@[a].obj_type
                == GalaxyObjectType::Sector;
        let b = choose|b: int|
            0 <= b < pre.objects@.len() && pre.objects@[b].id == id && pre.objects@[b].obj_type
                == GalaxyObjectType::System;
        assert(a == b);
    }
    if future_present(pre.futures@, id) && system_present(pre.systems@, id) {
        let a = choose|a: int|
            0 <= a < pre.objects@.len() && pre.objects@[a].id == id && pre.objects@[a].obj_type
                == GalaxyObjectType::SectorFuture;
        let b = choose|b: int|
            0 <= b < pre.objects@.len() && pre.objects@[b].id == id && pre.objects@[b].obj_type
                == GalaxyObjectType::System;
        assert(a == b);
    }
}

/// A row of the concrete relations is doomed exactly when its own
/// deletion predicate fires: a kept sector row's id, a kept future or
/// system row's id, none of them is doomed.
pub(crate) proof fn lemma_kept_rows_not_doomed(pre: Galaxy, root: i32)
    requires
        pre.wf(),
        sector_present(pre.sectors@, root),
    ensures
        forall|i: int|
            0 <= i < pre.sectors@.len() && !in_subtree(
                pre.sectors@,
                root,
                (#[trigger] pre.sectors@[i]).id,
            ) ==> !doomed(pre, root, pre.sectors@[i].id),
        forall|i: int|
            0 <= i < pre.futures@.len() && !in_subtree(
                pre.sectors@,
                root,
                (#[trigger] pre.futures@[i]).parent_id,
            ) ==> !doomed(pre, root, pre.futures@[i].id),
        forall|i: int|
            0 <= i < pre.systems@.len() && !in_subtree(
                pre.sectors@,
                root,
                (#[trigger] pre.systems@[i]).sector_id,
            ) ==> !doomed(pre, root, pre.systems@[i].id),
{
    assert forall|i: int|
        0 <= i < pre.sectors@.len() && !in_subtree(
            pre.sectors@,
            root,
            (#[trigger] pre.sectors@[i]).id,
        ) implies !doomed(pre, root, pre.sectors@[i].id) by {
        let x = pre.sectors@[i].id;
        lemma_kinds_exclusive(pre, x);
        assert(sector_present(pre.sectors@, x));
        if doomed(pre, root, x) {
            assert(future_present(pre.futures@, x) || system_present(pre.systems@, x));
        }
    }
    assert forall|i: int|
        0 <= i < pre.futures@.len() && !in_subtree(
            pre.sectors@,
            root,
            (#[trigger] pre.futures@[i]).parent_id,
        ) implies !doomed(pre, root, pre.futures@[i].id) by {
        let x = pre.futures@[i].id;
        lemma_kinds_exclusive(pre, x);
        assert(future_present(pre.futures@, x));
        if in_subtree(pre.sectors@, root, x) {
            if x == root {
                assert(sector_present(pre.sectors@, x));
            } else {
                assert(parent_of(pre.sectors@, x) is Some);
                assert(sector_present(pre.sectors@, x));
            }
        }
        if exists|m: int|
            0 <= m < pre.futures@.len() && (#[trigger] pre.futures@[m]).id == x && in_subtree(
                pre.sectors@,
                root,
                pre.futures@[m].parent_id,
            ) {
            let m = choose|m: int|
                0 <= m < pre.futures@.len() && (#[trigger] pre.futures@[m]).id == x && in_subtree(
                    pre.sectors@,
                    root,
                    pre.futures@[m].parent_id,
                );
            assert(m == i);
        }
        if system_present(pre.systems@, x) {
            assert(false);
        }
        assert(!doomed(pre, root, x));
    }
    assert forall|i: int|
        0 <= i < pre.systems@.len() && !in_subtree(
            pre.sectors@,
            root,
            (#[trigger] pre.systems@[i]).sector_id,
        ) implies !doomed(pre, root, pre.systems@[i].id) by {
        let x = pre.systems@[i].id;
        lemma_kinds_exclusive(pre, x);
        assert(system_present(pre.systems@, x));
        if in_subtree(pre.sectors@, root, x) {
            if x == root {
                assert(sector_present(pre.sectors@, x));
            } else {
                assert(parent_of(pre.sectors@, x) is Some);
                assert(sector_present(pre.sectors@, x));
            }
        }
        if exists|m: int|
            0 <= m < pre.systems@.len() && (#[trigger] pre.systems@[m]).id == x && in_subtree(
                pre.sectors@,
                root,
                pre.systems@[m].sector_id,
            ) {
            let m = choose|m: int|
                0 <= m < pre.systems@.len() && (#[trigger] pre.systems@[m]).id == x && in_subtree(
                    pre.sectors@,
                    root,
                    pre.systems@[m].sector_id,
                );
            assert(m == i);
        }
        if future_present(pre.futures@, x) {
            assert(false);
        }
        assert(!doomed(pre, root, x));
    }
}

/// A store stays well formed after one cascade deletion.
#[verifier::rlimit(100)]
proof fn lemma_delete_wf(pre: Galaxy, post: Galaxy, root: i32)
    requires
        pre.wf(),
        sector_present(pre.sectors@, root),
        delete_post(pre, post, root),
    ensures
        post.wf(),
{
    let keep_sec = |row: StarSector| !in_subtree(pre.sectors@, root, row.id);
    let keep_fut = |row: StarSectorFuture| !in_subtree(pre.sectors@, root, row.parent_id);
    let keep_sys = |row: StarSystem| !in_subtree(pre.sectors@, root, row.sector_id);
    let keep_obj = |o: GalaxyObject| !doomed(pre, root, o.id);
    let keep_lnk = |l: StarLink| !doomed(pre, root, l.a_id) && !doomed(pre, root, l.b_id);
    crate::store::lemma_filter_elements(pre.sectors@, keep_sec);
    crate::store::lemma_filter_elements(pre.futures@, keep_fut);
    crate::store::lemma_filter_elements(pre.systems@, keep_sys);
    crate::store::lemma_filter_elements(pre.objects@, keep_obj);
    crate::store::lemma_filter_elements(pre.links@, keep_lnk);
    crate::store::lemma_filter_distinct_keys(pre.sectors@, keep_sec, |row: StarSector| row.id);
    crate::store::lemma_filter_distinct_keys(
        pre.futures@,
        keep_fut,
        |row: StarSectorFuture| row.id,
    );
    crate::store::lemma_filter_distinct_keys(pre.systems@, keep_sys, |row: StarSystem| row.id);
    crate::store::lemma_filter_distinct_keys(pre.objects@, keep_obj, |o: GalaxyObject| o.id);
    crate::store::lemma_filter_distinct_keys(pre.links@, keep_lnk, |l: StarLink| l.id);
    lemma_kept_rows_not_doomed(pre, root);

    // a kept row keeps its object, a kept object keeps its row
    assert forall|id: i32, tt: GalaxyObjectType|
        obj_with(pre.objects@, id, tt) && !doomed(pre, root, id) implies obj_with(
        post.objects@,
        id,
        tt,
    ) by {
        let w = choose|w: int|
            0 <= w < pre.objects@.len() && pre.objects@[w].id == id && pre.objects@[w].obj_type
                == tt;
        pre.objects@.lemma_filter_contains(keep_obj, w);
        assert(post.objects@.contains(pre.objects@[w]));
        let v = choose|v: int| 0 <= v < post.objects@.len() && post.objects@[v] == pre.objects@[w];
        assert(post.objects@[v].id == id && post.objects@[v].obj_type == tt);
    }
    assert forall|id: i32|
        sector_present(pre.sectors@, id) && !in_subtree(pre.sectors@, root, id) implies
        sector_present(post.sectors@, id) by {
        let w = choose|w: int| 0 <= w < pre.sectors@.len() && pre.sectors@[w].id == id;
        pre.sectors@.lemma_filter_contains(keep_sec, w);
        let v = choose|v: int| 0 <= v < post.sectors@.len() && post.sectors@[v] == pre.sectors@[w];
        assert(post.sectors@[v].id == id);
    }
    assert forall|id: i32|
        future_present(pre.futures@, id) && !doomed(pre, root, id) implies future_present(
        post.futures@,
        id,
    ) by {
        let w = choose|w: int| 0 <= w < pre.futures@.len() && pre.futures@[w].id == id;
        assert(keep_fut(pre.futures@[w])) by {
            if in_subtree(pre.sectors@, root, pre.futures@[w].parent_id) {
                assert(doomed(pre, root, id));
            }
        }
        pre.futures@.lemma_filter_contains(keep_fut, w);
        let v = choose|v: int| 0 <= v < post.futures@.len() && post.futures@[v] == pre.futures@[w];
        assert(post.futures@[v].id == id);
    }
    assert forall|id: i32|
        system_present(pre.systems@, id) && !doomed(pre, root, id) implies system_present(
        post.systems@,
        id,
    ) by {
        let w = choose|w: int| 0 <= w < pre.systems@.len() && pre.systems@[w].id == id;
        assert(keep_sys(pre.systems@[w])) by {
            if in_subtree(pre.sectors@, root, pre.systems@[w].sector_id) {
                assert(doomed(pre, root, id));
            }
        }
        pre.systems@.lemma_filter_contains(keep_sys, w);
        let v = choose|v: int| 0 <= v < post.systems@.len() && post.systems@[v] == pre.systems@[w];
        assert(post.systems@[v].id == id);
    }

    // every kept row of the filtrates satisfies its predicate and is an
    // original row
    assert forall|i: int|
        0 <= i < post.sectors@.len() implies keep_sec(#[trigger] post.sectors@[i])
        && pre.sectors@.contains(post.sectors@[i]) by {
        pre.sectors@.lemma_filter_pred(keep_sec, i);
    }
    assert forall|i: int|
        0 <= i < post.futures@.len() implies keep_fut(#[trigger] post.futures@[i])
        && pre.futures@.contains(post.futures@[i]) by {
        pre.futures@.lemma_filter_pred(keep_fut, i);
    }
    assert forall|i: int|
        0 <= i < post.systems@.len() implies keep_sys(#[trigger] post.systems@[i])
        && pre.systems@.contains(post.systems@[i]) by {
        pre.systems@.lemma_filter_pred(keep_sys, i);
    }
    assert forall|i: int|
        0 <= i < post.objects@.len() implies keep_obj(#[trigger] post.objects@[i])
        && pre.objects@.contains(post.objects@[i]) by {
        pre.objects@.lemma_filter_pred(keep_obj, i);
    }
    assert forall|i: int|
        0 <= i < post.links@.len() implies keep_lnk(#[trigger] post.links@[i])
        && pre.links@.contains(post.links@[i]) by {
        pre.links@.lemma_filter_pred(keep_lnk, i);
    }

    assert(post.ids_distinct());
    assert(post.ids_bounded()) by {
        assert forall|i: int|
            0 <= i < post.objects@.len() implies 0 < (#[trigger] post.objects@[i]).id
                < post.next_id by {
            let w = choose|w: int|
                0 <= w < pre.objects@.len() && pre.objects@[w] == post.objects@[i];
        }
        assert forall|i: int|
            0 <= i < post.links@.len() implies 0 < (#[trigger] post.links@[i]).id
                < post.next_link_id by {
            let w = choose|w: int| 0 <= w < pre.links@.len() && pre.links@[w] == post.links@[i];
        }
    }
    assert(post.kinds_match()) by {
        assert forall|i: int|
            0 <= i < post.sectors@.len() implies obj_with(
            post.objects@,
            (#[trigger] post.sectors@[i]).id,
            GalaxyObjectType::Sector,
        ) by {
            let w = choose|w: int|
                0 <= w < pre.sectors@.len() && pre.sectors@[w] == post.sectors@[i];
            assert(obj_with(pre.objects@, pre.sectors@[w].id, GalaxyObjectType::Sector));
            assert(!doomed(pre, root, pre.sectors@[w].id));
        }
        assert forall|i: int|
            0 <= i < post.futures@.len() implies obj_with(
            post.objects@,
            (#[trigger] post.futures@[i]).id,
            GalaxyObjectType::SectorFuture,
        ) by {
            let w = choose|w: int|
                0 <= w < pre.futures@.len() && pre.futures@[w] == post.futures@[i];
            assert(obj_with(pre.objects@, pre.futures@[w].id, GalaxyObjectType::SectorFuture));
            assert(!doomed(pre, root, pre.futures@[w].id));
        }
        assert forall|i: int|
            0 <= i < post.systems@.len() implies obj_with(
            post.objects@,
            (#[trigger] post.systems@[i]).id,
            GalaxyObjectType::System,
        ) by {
            let w = choose|w: int|
                0 <= w < pre.systems@.len() && pre.systems@[w] == post.systems@[i];
            assert(obj_with(pre.objects@, pre.systems@[w].id, GalaxyObjectType::System));
            assert(!doomed(pre, root, pre.systems@[w].id));
        }
        assert forall|i: int|
            0 <= i < post.objects@.len() implies match (#[trigger] post.objects@[i]).obj_type {
            GalaxyObjectType::Sector => sector_present(post.sectors@, post.objects@[i].id),
            GalaxyObjectType::SectorFuture => future_present(post.futures@, post.objects@[i].id),
            GalaxyObjectType::System => system_present(post.systems@, post.objects@[i].id),
        } by {
            let o = post.objects@[i];
            let w = choose|w: int| 0 <= w < pre.objects@.len() && pre.objects@[w] == o;
            assert(!doomed(pre, root, o.id));
            match o.obj_type {
                GalaxyObjectType::Sector => {
                    assert(sector_present(pre.sectors@, o.id));
                    assert(!in_subtree(pre.sectors@, root, o.id));
                },
                GalaxyObjectType::SectorFuture => {
                    assert(future_present(pre.futures@, o.id));
                },
                GalaxyObjectType::System => {
                    assert(system_present(pre.systems@, o.id));
                },
            }
        }
    }
    assert(post.parents_ok()) by {
        assert forall|i: int|
            0 <= i < post.sectors@.len() implies match (#[trigger] post.sectors@[i]).parent_id {
            Some(p) => sector_present(post.sectors@, p) && 0 < p < post.sectors@[i].id,
            None => true,
        } by {
            let row = post.sectors@[i];
            let w = choose|w: int| 0 <= w < pre.sectors@.len() && pre.sectors@[w] == row;
            match row.parent_id {
                Some(p) => {
                    assert(sector_present(pre.sectors@, p) && 0 < p < row.id);
                    assert(!in_subtree(pre.sectors@, root, p)) by {
                        if in_subtree(pre.sectors@, root, p) {
                            let si = sector_index_of(pre.sectors@, row.id);
                            assert(0 <= si < pre.sectors@.len() && pre.sectors@[si].id == row.id);
                            assert(si == w);
                            assert(parent_of(pre.sectors@, row.id) == Some(p));
                            assert(row.id != root) by {
                                if row.id == root {
                                    assert(in_subtree(pre.sectors@, root, row.id));
                                }
                            }
                            assert(in_subtree(pre.sectors@, root, row.id));
                        }
                    }
                },
                None => {},
            }
        }
        assert forall|i: int|
            0 <= i < post.futures@.len() implies sector_present(
            post.sectors@,
            (#[trigger] post.futures@[i]).parent_id,
        ) && 0 < post.futures@[i].parent_id < post.futures@[i].id by {
            let row = post.futures@[i];
            let w = choose|w: int| 0 <= w < pre.futures@.len() && pre.futures@[w] == row;
            assert(sector_present(pre.sectors@, row.parent_id));
            assert(!in_subtree(pre.sectors@, root, row.parent_id));
        }
        assert forall|i: int|
            0 <= i < post.systems@.len() implies sector_present(
            post.sectors@,
            (#[trigger] post.systems@[i]).sector_id,
        ) && 0 < post.systems@[i].sector_id < post.systems@[i].id by {
            let row = post.systems@[i];
            let w = choose|w: int| 0 <= w < pre.systems@.len() && pre.systems@[w] == row;
            assert(sector_present(pre.sectors@, row.sector_id));
            assert(!in_subtree(pre.sectors@, root, row.sector_id));
        }
    }
    assert(post.links_ok()) by {
        assert forall|i: int|
            0 <= i < post.links@.len() implies obj_with(
            post.objects@,
            (#[trigger] post.links@[i]).a_id,
            post.links@[i].a_obj_type,
        ) && obj_with(post.objects@, post.links@[i].b_id, post.links@[i].b_obj_type) by {
            let l = post.links@[i];
            let w = choose|w: int| 0 <= w < pre.links@.len() && pre.links@[w] == l;
            assert(obj_with(pre.objects@, l.a_id, l.a_obj_type));
            assert(obj_with(pre.objects@, l.b_id, l.b_obj_type));
        }
    }
    assert(post.futures_bounded()) by {
        assert forall|i: int|
            0 <= i < post.futures@.len() implies 500 <= (#[trigger] post.futures@[i]).stars
                <= STARS_LIMIT && post.futures@[i].radius <= RADIUS_LIMIT by {
            let w = choose|w: int|
                0 <= w < pre.futures@.len() && pre.futures@[w] == post.futures@[i];
        }
    }
}

/// Delete one sector and everything beneath it: every descendant future,
/// system and sub-sector, all links touching any of those ids, and their
/// galaxy objects, as one all-or-nothing operation. Deleting an id that
/// is no sector fails with NotFound and leaves the store untouched.
pub fn delete_sector(g: &mut Galaxy, sector_id: i32) -> (r: Result<(), Error>)
    requires
        old(g).wf(),
    ensures
        final(g).wf(),
        (r is Err) == !sector_present(old(g).sectors@, sector_id),
        match r {
            Ok(()) => delete_post(*old(g), *final(g), sector_id),
            Err(e) => e == Error::NotFound && *final(g) == *old(g),
        },
{
    if !g.has_sector(sector_id) {
        return Err(Error::NotFound);
    }
    let ghost pre = *old(g);
    let root = sector_id;
    let subtree = collect_subtree(g, root);
    let doomed_ids = collect_doomed(g, &subtree, root);

    let mut kept_sectors: Vec<StarSector> = Vec::new();
    let n1 = g.sectors.len();
    let mut i: usize = 0;
    while i < n1
        invariant
            *g == pre,
            forall|x: i32| #[trigger] subtree@.contains(x) == in_subtree(pre.sectors@, root, x),
            n1 == g.sectors@.len(),
            i <= n1,
            kept_sectors@ == pre.sectors@.take(i as int).filter(
                |row: StarSector| !in_subtree(pre.sectors@, root, row.id),
            ),
        decreases n1 - i,
    {
        let row = g.sectors[i];
        if !ids_contain(&subtree, row.id) {
            kept_sectors.push(row);
        }
        i += 1;
        proof {
            assert(pre.sectors@.take(i as int) =~= pre.sectors@.take(i as int - 1).push(row));
            crate::store::lemma_filter_push(
                pre.sectors@.take(i as int - 1),
                row,
                (|row: StarSector| !in_subtree(pre.sectors@, root, row.id)),
            );
        }
    }

    let mut kept_futures: Vec<StarSectorFuture> = Vec::new();
    let n2 = g.futures.len();
    let mut i2: usize = 0;
    while i2 < n2
        invariant
            *g == pre,
            forall|x: i32| #[trigger] subtree@.contains(x) == in_subtree(pre.sectors@, root, x),
            n2 == g.futures@.len(),
            i2 <= n2,
            kept_futures@ == pre.futures@.take(i2 as int).filter(
                |row: StarSectorFuture| !in_subtree(pre.sectors@, root, row.parent_id),
            ),
        decreases n2 - i2,
    {
        let row = g.futures[i2];
        if !ids_contain(&subtree, row.parent_id) {
            kept_futures.push(row);
        }
        i2 += 1;
        proof {
            assert(pre.futures@.take(i2 as int) =~= pre.futures@.take(i2 as int - 1).push(row));
            crate::store::lemma_filter_push(
                pre.futures@.take(i2 as int - 1),
                row,
                (|row: StarSectorFuture| !in_subtree(pre.sectors@, root, row.parent_id)),
            );
        }
    }

    let mut kept_systems: Vec<StarSystem> = Vec::new();
    let n3 = g.systems.len();
    let mut i3: usize = 0;
    while i3 < n3
        invariant
            *g == pre,
            forall|x: i32| #[trigger] subtree@.contains(x) == in_subtree(pre.sectors@, root, x),
            n3 == g.systems@.len(),
            i3 <= n3,
            kept_systems@ == pre.systems@.take(i3 as int).filter(
                |row: StarSystem| !in_subtree(pre.sectors@, root, row.sector_id),
            ),
        decreases n3 - i3,
    {
        let row = StarSystem {
            id: g.systems[i3].id,
            name: g.systems[i3].name.clone(),
            sector_id: g.systems[i3].sector_id,
        };
        proof {
            assert(row == pre.systems@[i3 as int]);
        }
        if !ids_contain(&subtree, row.sector_id) {
            kept_systems.push(row);
        }
        i3 += 1;
        proof {
            assert(g.systems@[i3 - 1] == pre.systems@[i3 - 1]);
            assert(pre.systems@.take(i3 as int) =~= pre.systems@.take(i3 as int - 1).push(
                pre.systems@[i3 - 1],
            ));
            crate::store::lemma_filter_push(
                pre.systems@.take(i3 as int - 1),
                pre.systems@[i3 - 1],
                (|row: StarSystem| !in_subtree(pre.sectors@, root, row.sector_id)),
            );
        }
    }

    let mut kept_objects: Vec<GalaxyObject> = Vec::new();
    let n4 = g.objects.len();
    let mut i4: usize = 0;
    while i4 < n4
        invariant
            *g == pre,
            forall|x: i32| #[trigger] doomed_ids@.contains(x) == doomed(pre, root, x),
            n4 == g.objects@.len(),
            i4 <= n4,
            kept_objects@ == pre.objects@.take(i4 as int).filter(
                |o: GalaxyObject| !doomed(pre, root, o.id),
            ),
        decreases n4 - i4,
    {
        let row = g.objects[i4];
        if !ids_contain(&doomed_ids, row.id) {
            kept_objects.push(row);
        }
        i4 += 1;
        proof {
            assert(pre.objects@.take(i4 as int) =~= pre.objects@.take(i4 as int - 1).push(row));
            crate::store::lemma_filter_push(
                pre.objects@.take(i4 as int - 1),
                row,
                (|o: GalaxyObject| !doomed(pre, root, o.id)),
            );
        }
    }

    let mut kept_links: Vec<StarLink> = Vec::new();
    let n5 = g.links.len();
    let mut i5: usize = 0;
    while i5 < n5
        invariant
            *g == pre,
            forall|x: i32| #[trigger] doomed_ids@.contains(x) == doomed(pre, root, x),
            n5 == g.links@.len(),
            i5 <= n5,
            kept_links@ == pre.links@.take(i5 as int).filter(
                |l: StarLink| !doomed(pre, root, l.a_id) && !doomed(pre, root, l.b_id),
            ),
        decreases n5 - i5,
    {
        let row = g.links[i5];
        let drop_it = ids_contain(&doomed_ids, row.a_id) || ids_contain(&doomed_ids, row.b_id);
        if !drop_it {
            kept_links.push(row);
        }
        i5 += 1;
        proof {
            assert(pre.links@.take(i5 as int) =~= pre.links@.take(i5 as int - 1).push(row));
            crate::store::lemma_filter_push(
                pre.links@.take(i5 as int - 1),
                row,
                (|l: StarLink| !doomed(pre, root, l.a_id) && !doomed(pre, root, l.b_id)),
            );
        }
    }

    g.sectors = kept_sectors;
    g.futures = kept_futures;
    g.systems = kept_systems;
    g.objects = kept_objects;
    g.links = kept_links;
    proof {
        assert(pre.sectors@.take(n1 as int) =~= pre.sectors@);
        assert(pre.futures@.take(n2 as int) =~= pre.futures@);
        assert(pre.systems@.take(n3 as int) =~= pre.systems@);
        assert(pre.objects@.take(n4 as int) =~= pre.objects@);
        assert(pre.links@.take(n5 as int) =~= pre.links@);
        assert(delete_post(pre, *g, sector_id));
        lemma_delete_wf(pre, *g, sector_id);
    }
    Ok(())
}

/// The ids carried by a list of galaxy objects.
pub open spec fn ids_of(objs: Seq<GalaxyObject>) -> Seq<i32> {
    objs.map_values(|o: GalaxyObject| o.id)
}

/// The deferred children of a sector.
pub fn get_star_sector_children_futures(g: &Galaxy, sector: &StarSector) -> (r: Result<
    Vec<StarSectorFuture>,
    Error,
>)
    ensures
        r is Ok,
        match r {
            Ok(v) => v@ == g.futures@.filter(
                |f: StarSectorFuture| f.parent_id == sector.id,
            ),
            Err(_) => false,
        },
{
    let sid = sector.id;
    let ghost keep = |f: StarSectorFuture| f.parent_id == sector.id;
    let mut out: Vec<StarSectorFuture> = Vec::new();
    let n = g.futures.len();
    let mut i: usize = 0;
    proof {
        assert(g.futures@.take(0) =~= Seq::<StarSectorFuture>::empty());
        crate::store::lemma_filter_drop_all(g.futures@.take(0), keep);
    }
    while i < n
        invariant
            n == g.futures@.len(),
            i <= n,
            sid == sector.id,
            out@ == g.futures@.take(i as int).filter(keep),
            keep == (|f: StarSectorFuture| f.parent_id == sector.id),
        decreases n - i,
    {
        let row = g.futures[i];
        if row.parent_id == sid {
            out.push(row);
        }
        i += 1;
        proof {
            assert(g.futures@.take(i as int) =~= g.futures@.take(i as int - 1).push(row));
            crate::store::lemma_filter_push(g.futures@.take(i as int - 1), row, keep);
        }
    }
    proof {
        assert(g.futures@.take(n as int) =~= g.futures@);
    }
    Ok(out)
}

/// All links touching any of the given ids.
pub fn get_links_for_object_ids(g: &Galaxy, objects: Vec<i32>) -> (r: Result<Vec<StarLink>, Error>)
    ensures
        r is Ok,
        match r {
            Ok(v) => v@ == g.links@.filter(
                |l: StarLink| objects@.contains(l.a_id) || objects@.contains(l.b_id),
            ),
            Err(_) => false,
        },
{
    let ghost keep = |l: StarLink| objects@.contains(l.a_id) || objects@.contains(l.b_id);
    let mut out: Vec<StarLink> = Vec::new();
    let n = g.links.len();
    let mut i: usize = 0;
    proof {
        assert(g.links@.take(0) =~= Seq::<StarLink>::empty());
        crate::store::lemma_filter_drop_all(g.links@.take(0), keep);
    }
    while i < n
        invariant
            n == g.links@.len(),
            i <= n,
            out@ == g.links@.take(i as int).filter(keep),
            keep == (|l: StarLink| objects@.contains(l.a_id) || objects@.contains(l.b_id)),
        decreases n - i,
    {
        let row = g.links[i];
        if ids_contain(&objects, row.a_id) || ids_contain(&objects, row.b_id) {
            out.push(row);
        }
        i += 1;
        proof {
            assert(g.links@.take(i as int) =~= g.links@.take(i as int - 1).push(row));
            crate::store::lemma_filter_push(g.links@.take(i as int - 1), row, keep);
        }
    }
    proof {
        assert(g.links@.take(n as int) =~= g.links@);
    }
    Ok(out)
}

/// All links touching any of the given galaxy objects.
pub fn get_links_for_objects(g: &Galaxy, objects: Vec<GalaxyObject>) -> (r: Result<
    Vec<StarLink>,
    Error,
>)
    ensures
        r is Ok,
        match r {
            Ok(v) => v@ == g.links@.filter(
                |l: StarLink| ids_of(objects@).contains(l.a_id) || ids_of(objects@).contains(
                    l.b_id,
                ),
            ),
            Err(_) => false,
        },
{
    let mut ids: Vec<i32> = Vec::new();
    let n = objects.len();
    let mut i: usize = 0;
    while i < n
        invariant
            n == objects@.len(),
            i <= n,
            ids@.len() == i,
            forall|k: int| 0 <= k < i ==> #[trigger] ids@[k] == objects@[k].id,
        decreases n - i,
    {
        ids.push(objects[i].id);
        i += 1;
    }
    proof {
        assert(ids@ =~= ids_of(objects@));
    }
    get_links_for_object_ids(g, ids)
}


/// An id destroyed by deleting the futures directly under one sector:
/// it names a future row whose parent is that sector.
pub open spec fn future_child(pre: Galaxy, sector_id: i32, x: i32) -> bool {
    exists|i: int|
        0 <= i < pre.futures@.len() && (#[trigger] pre.futures@[i]).id == x
            && pre.futures@[i].parent_id == sector_id
}

/// What deleting one sector's direct futures does to the store: those
/// future rows, their galaxy objects and every link touching them are
/// gone; everything else stays.
pub open spec fn delete_futures_post(pre: Galaxy, post: Galaxy, sector_id: i32, n: int) -> bool {
    &&& n == pre.futures@.filter(|f: StarSectorFuture| f.parent_id == sector_id).len()
    &&& post.futures@ == pre.futures@.filter(|f: StarSectorFuture| f.parent_id != sector_id)
    &&& post.objects@ == pre.objects@.filter(|o: GalaxyObject| !future_child(pre, sector_id, o.id))
    &&& post.links@ == pre.links@.filter(
        |l: StarLink| !future_child(pre, sector_id, l.a_id) && !future_child(pre, sector_id, l.b_id),
    )
    &&& post.sectors@ == pre.sectors@
    &&& post.systems@ == pre.systems@
    &&& post.next_id == pre.next_id
    &&& post.next_link_id == pre.next_link_id
}

/// The store stays well formed after one bulk deletion of a sector's
/// direct futures.
#[verifier::rlimit(100)]
proof fn lemma_delete_futures_wf(pre: Galaxy, post: Galaxy, sector_id: i32, n: int)
    requires
        pre.wf(),
        delete_futures_post(pre, post, sector_id, n),
    ensures
        post.wf(),
{
    let keep_fut = |f: StarSectorFuture| f.parent_id != sector_id;
    let keep_obj = |o: GalaxyObject| !future_child(pre, sector_id, o.id);
    let keep_lnk = |l: StarLink| !future_child(pre, sector_id, l.a_id) && !future_child(
        pre,
        sector_id,
        l.b_id,
    );
    crate::store::lemma_filter_elements(pre.futures@, keep_fut);
    crate::store::lemma_filter_elements(pre.objects@, keep_obj);
    crate::store::lemma_filter_elements(pre.links@, keep_lnk);
    crate::store::lemma_filter_distinct_keys(
        pre.futures@,
        keep_fut,
        |f: StarSectorFuture| f.id,
    );
    crate::store::lemma_filter_distinct_keys(pre.objects@, keep_obj, |o: GalaxyObject| o.id);
    crate::store::lemma_filter_distinct_keys(pre.links@, keep_lnk, |l: StarLink| l.id);

    assert forall|i: int|
        0 <= i < post.futures@.len() implies keep_fut(#[trigger] post.futures@[i])
        && pre.futures@.contains(post.futures@[i]) by {
        pre.futures@.lemma_filter_pred(keep_fut, i);
    }
    assert forall|i: int|
        0 <= i < post.objects@.len() implies keep_obj(#[trigger] post.objects@[i])
        && pre.objects@.contains(post.objects@[i]) by {
        pre.objects@.lemma_filter_pred(keep_obj, i);
    }
    assert forall|i: int|
        0 <= i < post.links@.len() implies keep_lnk(#[trigger] post.links@[i])
        && pre.links@.contains(post.links@[i]) by {
        pre.links@.lemma_filter_pred(keep_lnk, i);
    }

    // a kept object of any kind keeps its row, and a kept row keeps its
    // object
    assert forall|id: i32, tt: GalaxyObjectType|
        obj_with(pre.objects@, id, tt) && !future_child(pre, sector_id, id) implies obj_with(
        post.objects@,
        id,
        tt,
    ) by {
        let w = choose|w: int|
            0 <= w < pre.objects@.len() && pre.objects@[w].id == id && pre.objects@[w].obj_type
                == tt;
        pre.objects@.lemma_filter_contains(keep_obj, w);
        let v = choose|v: int| 0 <= v < post.objects@.len() && post.objects@[v] == pre.objects@[w];
        assert(post.objects@[v].id == id && post.objects@[v].obj_type == tt);
    }
    assert forall|id: i32|
        future_present(pre.futures@, id) && !future_child(pre, sector_id, id) implies
        future_present(post.futures@, id) by {
        let w = choose|w: int| 0 <= w < pre.futures@.len() && pre.futures@[w].id == id;
        assert(keep_fut(pre.futures@[w])) by {
            if pre.futures@[w].parent_id == sector_id {
                assert(future_child(pre, sector_id, id));
            }
        }
        pre.futures@.lemma_filter_contains(keep_fut, w);
        let v = choose|v: int| 0 <= v < post.futures@.len() && post.futures@[v] == pre.futures@[w];
        assert(post.futures@[v].id == id);
    }
    // only future ids can be doomed here
    assert forall|id: i32|
        future_child(pre, sector_id, id) implies !sector_present(pre.sectors@, id)
        && !system_present(pre.systems@, id) by {
        lemma_kinds_exclusive(pre, id);
        assert(future_present(pre.futures@, id));
    }

    assert(post.ids_distinct());
    assert(post.ids_bounded()) by {
        assert forall|i: int|
            0 <= i < post.objects@.len() implies 0 < (#[trigger] post.objects@[i]).id
                < post.next_id by {
            let w = choose|w: int|
                0 <= w < pre.objects@.len() && pre.objects@[w] == post.objects@[i];
        }
        assert forall|i: int|
            0 <= i < post.links@.len() implies 0 < (#[trigger] post.links@[i]).id
                < post.next_link_id by {
            let w = choose|w: int| 0 <= w < pre.links@.len() && pre.links@[w] == post.links@[i];
        }
    }
    assert(post.kinds_match()) by {
        assert forall|i: int|
            0 <= i < post.sectors@.len() implies obj_with(
            post.objects@,
            (#[trigger] post.sectors@[i]).id,
            GalaxyObjectType::Sector,
        ) by {
            assert(obj_with(pre.objects@, pre.sectors@[i].id, GalaxyObjectType::Sector));
            assert(sector_present(pre.sectors@, pre.sectors@[i].id));
        }
        assert forall|i: int|
            0 <= i < post.futures@.len() implies obj_with(
            post.objects@,
            (#[trigger] post.futures@[i]).id,
            GalaxyObjectType::SectorFuture,
        ) by {
            let w = choose|w: int|
                0 <= w < pre.futures@.len() && pre.futures@[w] == post.futures@[i];
            assert(obj_with(pre.objects@, pre.futures@[w].id, GalaxyObjectType::SectorFuture));
            assert(!future_child(pre, sector_id, pre.futures@[w].id)) by {
                if future_child(pre, sector_id, pre.futures@[w].id) {
                    let m = choose|m: int|
                        0 <= m < pre.futures@.len() && (#[trigger] pre.futures@[m]).id
                            == pre.futures@[w].id && pre.futures@[m].parent_id == sector_id;
                    assert(m == w);
                }
            }
        }
        assert forall|i: int|
            0 <= i < post.systems@.len() implies obj_with(
            post.objects@,
            (#[trigger] post.systems@[i]).id,
            GalaxyObjectType::System,
        ) by {
            assert(obj_with(pre.objects@, pre.systems@[i].id, GalaxyObjectType::System));
            assert(system_present(pre.systems@, pre.systems@[i].id));
        }
        assert forall|i: int|
            0 <= i < post.objects@.len() implies match (#[trigger] post.objects@[i]).obj_type {
            GalaxyObjectType::Sector => sector_present(post.sectors@, post.objects@[i].id),
            GalaxyObjectType::SectorFuture => future_present(post.futures@, post.objects@[i].id),
            GalaxyObjectType::System => system_present(post.systems@, post.objects@[i].id),
        } by {
            let o = post.objects@[i];
            let w = choose|w: int| 0 <= w < pre.objects@.len() && pre.objects@[w] == o;
            match o.obj_type {
                GalaxyObjectType::Sector => {
                    assert(sector_present(pre.sectors@, o.id));
                },
                GalaxyObjectType::SectorFuture => {
                    assert(future_present(pre.futures@, o.id));
                },
                GalaxyObjectType::System => {
                    assert(system_present(pre.systems@, o.id));
                },
            }
        }
    }
    assert(post.parents_ok()) by {
        assert forall|i: int|
            0 <= i < post.futures@.len() implies sector_present(
            post.sectors@,
            (#[trigger] post.futures@[i]).parent_id,
        ) && 0 < post.futures@[i].parent_id < post.futures@[i].id by {
            let w = choose|w: int|
                0 <= w < pre.futures@.len() && pre.futures@[w] == post.futures@[i];
        }
    }
    assert(post.links_ok()) by {
        assert forall|i: int|
            0 <= i < post.links@.len() implies obj_with(
            post.objects@,
            (#[trigger] post.links@[i]).a_id,
            post.links@[i].a_obj_type,
        ) && obj_with(post.objects@, post.links@[i].b_id, post.links@[i].b_obj_type) by {
            let l = post.links@[i];
            let w = choose|w: int| 0 <= w < pre.links@.len() && pre.links@[w] == l;
            assert(obj_with(pre.objects@, l.a_id, l.a_obj_type));
            assert(obj_with(pre.objects@, l.b_id, l.b_obj_type));
        }
    }
    assert(post.futures_bounded()) by {
        assert forall|i: int|
            0 <= i < post.futures@.len() implies 500 <= (#[trigger] post.futures@[i]).stars
                <= STARS_LIMIT && post.futures@[i].radius <= RADIUS_LIMIT by {
            let w = choose|w: int|
                0 <= w < pre.futures@.len() && pre.futures@[w] == post.futures@[i];
        }
    }
}

/// Delete every future directly under one sector: the rows, their
/// galaxy objects and every link touching them, answering with how many
/// futures were removed.
pub fn delete_sector_futures(g: &mut Galaxy, sector_id: i32) -> (r: Result<usize, Error>)
    requires
        old(g).wf(),
    ensures
        final(g).wf(),
        r is Ok,
        match r {
            Ok(n) => delete_futures_post(*old(g), *final(g), sector_id, n as int),
            Err(_) => false,
        },
{
    let ghost pre = *old(g);
    let ghost keep_fut = |f: StarSectorFuture| f.parent_id != sector_id;
    let ghost gone_fut = |f: StarSectorFuture| f.parent_id == sector_id;
    let ghost keep_obj = |o: GalaxyObject| !future_child(pre, sector_id, o.id);
    let ghost keep_lnk = |l: StarLink| !future_child(pre, sector_id, l.a_id) && !future_child(
        pre,
        sector_id,
        l.b_id,
    );

    // gather the doomed ids
    let mut gone_ids: Vec<i32> = Vec::new();
    let mut kept_futures: Vec<StarSectorFuture> = Vec::new();
    let n1 = g.futures.len();
    let mut i: usize = 0;
    while i < n1
        invariant
            *g == pre,
            n1 == g.futures@.len(),
            i <= n1,
            kept_futures@ == pre.futures@.take(i as int).filter(
                |f: StarSectorFuture| f.parent_id != sector_id,
            ),
            forall|x: i32|
                #[trigger] gone_ids@.contains(x) == exists|m: int|
                    0 <= m < i && (#[trigger] pre.futures@[m]).id == x && pre.futures@[m].parent_id
                        == sector_id,
            gone_ids@.len() == pre.futures@.take(i as int).filter(
                |f: StarSectorFuture| f.parent_id == sector_id,
            ).len(),
        decreases n1 - i,
    {
        let row = g.futures[i];
        let ghost gone0 = gone_ids@;
        if row.parent_id == sector_id {
            gone_ids.push(row.id);
        } else {
            kept_futures.push(row);
        }
        i += 1;
        proof {
            assert(pre.futures@.take(i as int) =~= pre.futures@.take(i as int - 1).push(row));
            crate::store::lemma_filter_push(
                pre.futures@.take(i as int - 1),
                row,
                (|f: StarSectorFuture| f.parent_id != sector_id),
            );
            crate::store::lemma_filter_push(
                pre.futures@.take(i as int - 1),
                row,
                (|f: StarSectorFuture| f.parent_id == sector_id),
            );
            if row.parent_id == sector_id {
                assert(gone_ids@[gone_ids@.len() - 1] == row.id);
            }
            assert forall|x: i32|
                #[trigger] gone_ids@.contains(x) == exists|m: int|
                    0 <= m < i && (#[trigger] pre.futures@[m]).id == x && pre.futures@[m].parent_id
                        == sector_id by {
                if gone_ids@.contains(x) {
                    let k = choose|k: int| 0 <= k < gone_ids@.len() && gone_ids@[k] == x;
                    if k < gone0.len() {
                        assert(gone0[k] == x);
                        assert(gone0.contains(x));
                    } else {
                        assert(x == row.id);
                        assert(pre.futures@[i - 1].id == x);
                    }
                }
                if exists|m: int|
                    0 <= m < i && (#[trigger] pre.futures@[m]).id == x && pre.futures@[m].parent_id
                        == sector_id {
                    let m = choose|m: int|
                        0 <= m < i && (#[trigger] pre.futures@[m]).id == x
                            && pre.futures@[m].parent_id == sector_id;
                    if m < i - 1 {
                        assert(gone0.contains(x));
                        let k = choose|k: int| 0 <= k < gone0.len() && gone0[k] == x;
                        assert(gone_ids@[k] == x);
                    } else {
                        assert(gone_ids@[gone_ids@.len() - 1] == x);
                    }
                }
            }
        }
    }
    proof {
        assert(pre.futures@.take(n1 as int) =~= pre.futures@);
        assert(forall|x: i32|
            #[trigger] gone_ids@.contains(x) == future_child(pre, sector_id, x));
    }
    let count = gone_ids.len();

    let mut kept_objects: Vec<GalaxyObject> = Vec::new();
    let n2 = g.objects.len();
    let mut i2: usize = 0;
    while i2 < n2
        invariant
            *g == pre,
            forall|x: i32| #[trigger] gone_ids@.contains(x) == future_child(pre, sector_id, x),
            n2 == g.objects@.len(),
            i2 <= n2,
            kept_objects@ == pre.objects@.take(i2 as int).filter(
                |o: GalaxyObject| !future_child(pre, sector_id, o.id),
            ),
        decreases n2 - i2,
    {
        let row = g.objects[i2];
        if !ids_contain(&gone_ids, row.id) {
            kept_objects.push(row);
        }
        i2 += 1;
        proof {
            assert(pre.objects@.take(i2 as int) =~= pre.objects@.take(i2 as int - 1).push(row));
            crate::store::lemma_filter_push(
                pre.objects@.take(i2 as int - 1),
                row,
                (|o: GalaxyObject| !future_child(pre, sector_id, o.id)),
            );
        }
    }

    let mut kept_links: Vec<StarLink> = Vec::new();
    let n3 = g.links.len();
    let mut i3: usize = 0;
    while i3 < n3
        invariant
            *g == pre,
            forall|x: i32| #[trigger] gone_ids@.contains(x) == future_child(pre, sector_id, x),
            n3 == g.links@.len(),
            i3 <= n3,
            kept_links@ == pre.links@.take(i3 as int).filter(
                |l: StarLink| !future_child(pre, sector_id, l.a_id) && !future_child(
                    pre,
                    sector_id,
                    l.b_id,
                ),
            ),
        decreases n3 - i3,
    {
        let row = g.links[i3];
        let doomed_link = ids_contain(&gone_ids, row.a_id) || ids_contain(&gone_ids, row.b_id);
        if !doomed_link {
            kept_links.push(row);
        }
        i3 += 1;
        proof {
            assert(pre.links@.take(i3 as int) =~= pre.links@.take(i3 as int - 1).push(row));
            crate::store::lemma_filter_push(
                pre.links@.take(i3 as int - 1),
                row,
                (|l: StarLink| !future_child(pre, sector_id, l.a_id) && !future_child(
                    pre,
                    sector_id,
                    l.b_id,
                )),
            );
        }
    }

    g.futures = kept_futures;
    g.objects = kept_objects;
    g.links = kept_links;
    proof {
        assert(pre.objects@.take(n2 as int) =~= pre.objects@);
        assert(pre.links@.take(n3 as int) =~= pre.links@);
        assert(delete_futures_post(pre, *g, sector_id, count as int));
        lemma_delete_futures_wf(pre, *g, sector_id, count as int);
    }
    Ok(count)
}


/// An id destroyed by deleting the systems directly under one sector:
/// it names a system row whose sector is that sector.
pub open spec fn system_child(pre: Galaxy, sector_id: i32, x: i32) -> bool {
    exists|i: int|
        0 <= i < pre.systems@.len() && (#[trigger] pre.systems@[i]).id == x
            && pre.systems@[i].sector_id == sector_id
}

/// What deleting one sector's direct systems does to the store: those
/// system rows, their galaxy objects and every link touching them are
/// gone; everything else stays.
pub open spec fn delete_systems_post(pre: Galaxy, post: Galaxy, sector_id: i32, n: int) -> bool {
    &&& n == pre.systems@.filter(|y: StarSystem| y.sector_id == sector_id).len()
    &&& post.systems@ == pre.systems@.filter(|y: StarSystem| y.sector_id != sector_id)
    &&& post.objects@ == pre.objects@.filter(|o: GalaxyObject| !system_child(pre, sector_id, o.id))
    &&& post.links@ == pre.links@.filter(
        |l: StarLink| !system_child(pre, sector_id, l.a_id) && !system_child(pre, sector_id, l.b_id),
    )
    &&& post.sectors@ == pre.sectors@
    &&& post.futures@ == pre.futures@
    &&& post.next_id == pre.next_id
    &&& post.next_link_id == pre.next_link_id
}

/// The store stays well formed after one bulk deletion of a sector's
/// direct systems.
#[verifier::rlimit(100)]
proof fn lemma_delete_systems_wf(pre: Galaxy, post: Galaxy, sector_id: i32, n: int)
    requires
        pre.wf(),
        delete_systems_post(pre, post, sector_id, n),
    ensures
        post.wf(),
{
    let keep_sys = |y: StarSystem| y.sector_id != sector_id;
    let keep_obj = |o: GalaxyObject| !system_child(pre, sector_id, o.id);
    let keep_lnk = |l: StarLink| !system_child(pre, sector_id, l.a_id) && !system_child(
        pre,
        sector_id,
        l.b_id,
    );
    crate::store::lemma_filter_elements(pre.systems@, keep_sys);
    crate::store::lemma_filter_elements(pre.objects@, keep_obj);
    crate::store::lemma_filter_elements(pre.links@, keep_lnk);
    crate::store::lemma_filter_distinct_keys(pre.systems@, keep_sys, |y: StarSystem| y.id);
    crate::store::lemma_filter_distinct_keys(pre.objects@, keep_obj, |o: GalaxyObject| o.id);
    crate::store::lemma_filter_distinct_keys(pre.links@, keep_lnk, |l: StarLink| l.id);

    assert forall|i: int|
        0 <= i < post.systems@.len() implies keep_sys(#[trigger] post.systems@[i])
        && pre.systems@.contains(post.systems@[i]) by {
        pre.systems@.lemma_filter_pred(keep_sys, i);
    }
    assert forall|i: int|
        0 <= i < post.objects@.len() implies keep_obj(#[trigger] post.objects@[i])
        && pre.objects@.contains(post.objects@[i]) by {
        pre.objects@.lemma_filter_pred(keep_obj, i);
    }
    assert forall|i: int|
        0 <= i < post.links@.len() implies keep_lnk(#[trigger] post.links@[i])
        && pre.links@.contains(post.links@[i]) by {
        pre.links@.lemma_filter_pred(keep_lnk, i);
    }

    // a kept object of any kind keeps its row, and a kept row keeps its
    // object
    assert forall|id: i32, tt: GalaxyObjectType|
        obj_with(pre.objects@, id, tt) && !system_child(pre, sector_id, id) implies obj_with(
        post.objects@,
        id,
        tt,
    ) by {
        let w = choose|w: int|
            0 <= w < pre.objects@.len() && pre.objects@[w].id == id && pre.objects@[w].obj_type
                == tt;
        pre.objects@.lemma_filter_contains(keep_obj, w);
        let v = choose|v: int| 0 <= v < post.objects@.len() && post.objects@[v] == pre.objects@[w];
        assert(post.objects@[v].id == id && post.objects@[v].obj_type == tt);
    }
    assert forall|id: i32|
        system_present(pre.systems@, id) && !system_child(pre, sector_id, id) implies
        system_present(post.systems@, id) by {
        let w = choose|w: int| 0 <= w < pre.systems@.len() && pre.systems@[w].id == id;
        assert(keep_sys(pre.systems@[w])) by {
            if pre.systems@[w].sector_id == sector_id {
                assert(system_child(pre, sector_id, id));
            }
        }
        pre.systems@.lemma_filter_contains(keep_sys, w);
        let v = choose|v: int| 0 <= v < post.systems@.len() && post.systems@[v] == pre.systems@[w];
        assert(post.systems@[v].id == id);
    }
    // only system ids can be doomed here
    assert forall|id: i32|
        system_child(pre, sector_id, id) implies !sector_present(pre.sectors@, id)
        && !future_present(pre.futures@, id) by {
        lemma_kinds_exclusive(pre, id);
        assert(system_present(pre.systems@, id));
    }

    assert(post.ids_distinct());
    assert(post.ids_bounded()) by {
        assert forall|i: int|
            0 <= i < post.objects@.len() implies 0 < (#[trigger] post.objects@[i]).id
                < post.next_id by {
            let w = choose|w: int|
                0 <= w < pre.objects@.len() && pre.objects@[w] == post.objects@[i];
        }
        assert forall|i: int|
            0 <= i < post.links@.len() implies 0 < (#[trigger] post.links@[i]).id
                < post.next_link_id by {
            let w = choose|w: int| 0 <= w < pre.links@.len() && pre.links@[w] == post.links@[i];
        }
    }
    assert(post.kinds_match()) by {
        assert forall|i: int|
            0 <= i < post.sectors@.len() implies obj_with(
            post.objects@,
            (#[trigger] post.sectors@[i]).id,
            GalaxyObjectType::Sector,
        ) by {
            assert(obj_with(pre.objects@, pre.sectors@[i].id, GalaxyObjectType::Sector));
            assert(sector_present(pre.sectors@, pre.sectors@[i].id));
        }
        assert forall|i: int|
            0 <= i < post.futures@.len() implies obj_with(
            post.objects@,
            (#[trigger] post.futures@[i]).id,
            GalaxyObjectType::SectorFuture,
        ) by {
            assert(obj_with(pre.objects@, pre.futures@[i].id, GalaxyObjectType::SectorFuture));
            assert(future_present(pre.futures@, pre.futures@[i].id));
        }
        assert forall|i: int|
            0 <= i < post.systems@.len() implies obj_with(
            post.objects@,
            (#[trigger] post.systems@[i]).id,
            GalaxyObjectType::System,
        ) by {
            let w = choose|w: int|
                0 <= w < pre.systems@.len() && pre.systems@[w] == post.systems@[i];
            assert(obj_with(pre.objects@, pre.systems@[w].id, GalaxyObjectType::System));
            assert(!system_child(pre, sector_id, pre.systems@[w].id)) by {
                if system_child(pre, sector_id, pre.systems@[w].id) {
                    let m = choose|m: int|
                        0 <= m < pre.systems@.len() && (#[trigger] pre.systems@[m]).id
                            == pre.systems@[w].id && pre.systems@[m].sector_id == sector_id;
                    assert(m == w);
                }
            }
        }
        assert forall|i: int|
            0 <= i < post.objects@.len() implies match (#[trigger] post.objects@[i]).obj_type {
            GalaxyObjectType::Sector => sector_present(post.sectors@, post.objects@[i].id),
            GalaxyObjectType::SectorFuture => future_present(post.futures@, post.objects@[i].id),
            GalaxyObjectType::System => system_present(post.systems@, post.objects@[i].id),
        } by {
            let o = post.objects@[i];
            let w = choose|w: int| 0 <= w < pre.objects@.len() && pre.objects@[w] == o;
            match o.obj_type {
                GalaxyObjectType::Sector => {
                    assert(sector_present(pre.sectors@, o.id));
                },
                GalaxyObjectType::SectorFuture => {
                    assert(future_present(pre.futures@, o.id));
                },
                GalaxyObjectType::System => {
                    assert(system_present(pre.systems@, o.id));
                },
            }
        }
    }
    assert(post.parents_ok()) by {
        assert forall|i: int|
            0 <= i < post.systems@.len() implies sector_present(
            post.sectors@,
            (#[trigger] post.systems@[i]).sector_id,
        ) && 0 < post.systems@[i].sector_id < post.systems@[i].id by {
            let w = choose|w: int|
                0 <= w < pre.systems@.len() && pre.systems@[w] == post.systems@[i];
        }
    }
    assert(post.links_ok()) by {
        assert forall|i: int|
            0 <= i < post.links@.len() implies obj_with(
            post.objects@,
            (#[trigger] post.links@[i]).a_id,
            post.links@[i].a_obj_type,
        ) && obj_with(post.objects@, post.links@[i].b_id, post.links@[i].b_obj_type) by {
            let l = post.links@[i];
            let w = choose|w: int| 0 <= w < pre.links@.len() && pre.links@[w] == l;
            assert(obj_with(pre.objects@, l.a_id, l.a_obj_type));
            assert(obj_with(pre.objects@, l.b_id, l.b_obj_type));
        }
    }
    assert(post.futures_bounded());
}

/// Delete every star system directly under one sector: the rows, their
/// galaxy objects and every link touching them, answering with how many
/// systems were removed.
pub fn delete_sector_systems(g: &mut Galaxy, sector_id: i32) -> (r: Result<usize, Error>)
    requires
        old(g).wf(),
    ensures
        final(g).wf(),
        r is Ok,
        match r {
            Ok(n) => delete_systems_post(*old(g), *final(g), sector_id, n as int),
            Err(_) => false,
        },
{
    let ghost pre = *old(g);

    // gather the doomed ids
    let mut gone_ids: Vec<i32> = Vec::new();
    let mut kept_systems: Vec<StarSystem> = Vec::new();
    let n1 = g.systems.len();
    let mut i: usize = 0;
    while i < n1
        invariant
            *g == pre,
            n1 == g.systems@.len(),
            i <= n1,
            kept_systems@ == pre.systems@.take(i as int).filter(
                |y: StarSystem| y.sector_id != sector_id,
            ),
            forall|x: i32|
                #[trigger] gone_ids@.contains(x) == exists|m: int|
                    0 <= m < i && (#[trigger] pre.systems@[m]).id == x && pre.systems@[m].sector_id
                        == sector_id,
            gone_ids@.len() == pre.systems@.take(i as int).filter(
                |y: StarSystem| y.sector_id == sector_id,
            ).len(),
        decreases n1 - i,
    {
        let row = StarSystem {
            id: g.systems[i].id,
            name: g.systems[i].name.clone(),
            sector_id: g.systems[i].sector_id,
        };
        proof {
            assert(row == pre.systems@[i as int]);
        }
        let ghost gone0 = gone_ids@;
        if row.sector_id == sector_id {
            gone_ids.push(row.id);
        } else {
            kept_systems.push(row);
        }
        i += 1;
        proof {
            assert(pre.systems@.take(i as int) =~= pre.systems@.take(i as int - 1).push(
                pre.systems@[i - 1],
            ));
            crate::store::lemma_filter_push(
                pre.systems@.take(i as int - 1),
                pre.systems@[i - 1],
                (|y: StarSystem| y.sector_id != sector_id),
            );
            crate::store::lemma_filter_push(
                pre.systems@.take(i as int - 1),
                pre.systems@[i - 1],
                (|y: StarSystem| y.sector_id == sector_id),
            );
            if pre.systems@[i - 1].sector_id == sector_id {
                assert(gone_ids@[gone_ids@.len() - 1] == pre.systems@[i - 1].id);
            }
            assert forall|x: i32|
                #[trigger] gone_ids@.contains(x) == exists|m: int|
                    0 <= m < i && (#[trigger] pre.systems@[m]).id == x && pre.systems@[m].sector_id
                        == sector_id by {
                if gone_ids@.contains(x) {
                    let k = choose|k: int| 0 <= k < gone_ids@.len() && gone_ids@[k] == x;
                    if k < gone0.len() {
                        assert(gone0[k] == x);
                        assert(gone0.contains(x));
                    } else {
                        assert(x == pre.systems@[i - 1].id);
                    }
                }
                if exists|m: int|
                    0 <= m < i && (#[trigger] pre.systems@[m]).id == x && pre.systems@[m].sector_id
                        == sector_id {
                    let m = choose|m: int|
                        0 <= m < i && (#[trigger] pre.systems@[m]).id == x
                            && pre.systems@[m].sector_id == sector_id;
                    if m < i - 1 {
                        assert(gone0.contains(x));
                        let k = choose|k: int| 0 <= k < gone0.len() && gone0[k] == x;
                        assert(gone_ids@[k] == x);
                    } else {
                        assert(gone_ids@[gone_ids@.len() - 1] == x);
                    }
                }
            }
        }
    }
    proof {
        assert(pre.systems@.take(n1 as int) =~= pre.systems@);
        assert(forall|x: i32|
            #[trigger] gone_ids@.contains(x) == system_child(pre, sector_id, x));
    }
    let count = gone_ids.len();

    let mut kept_objects: Vec<GalaxyObject> = Vec::new();
    let n2 = g.objects.len();
    let mut i2: usize = 0;
    while i2 < n2
        invariant
            *g == pre,
            forall|x: i32| #[trigger] gone_ids@.contains(x) == system_child(pre, sector_id, x),
            n2 == g.objects@.len(),
            i2 <= n2,
            kept_objects@ == pre.objects@.take(i2 as int).filter(
                |o: GalaxyObject| !system_child(pre, sector_id, o.id),
            ),
        decreases n2 - i2,
    {
        let row = g.objects[i2];
        if !ids_contain(&gone_ids, row.id) {
            kept_objects.push(row);
        }
        i2 += 1;
        proof {
            assert(pre.objects@.take(i2 as int) =~= pre.objects@.take(i2 as int - 1).push(row));
            crate::store::lemma_filter_push(
                pre.objects@.take(i2 as int - 1),
                row,
                (|o: GalaxyObject| !system_child(pre, sector_id, o.id)),
            );
        }
    }

    let mut kept_links: Vec<StarLink> = Vec::new();
    let n3 = g.links.len();
    let mut i3: usize = 0;
    while i3 < n3
        invariant
            *g == pre,
            forall|x: i32| #[trigger] gone_ids@.contains(x) == system_child(pre, sector_id, x),
            n3 == g.links@.len(),
            i3 <= n3,
            kept_links@ == pre.links@.take(i3 as int).filter(
                |l: StarLink| !system_child(pre, sector_id, l.a_id) && !system_child(
                    pre,
                    sector_id,
                    l.b_id,
                ),
            ),
        decreases n3 - i3,
    {
        let row = g.links[i3];
        let doomed_link = ids_contain(&gone_ids, row.a_id) || ids_contain(&gone_ids, row.b_id);
        if !doomed_link {
            kept_links.push(row);
        }
        i3 += 1;
        proof {
            assert(pre.links@.take(i3 as int) =~= pre.links@.take(i3 as int - 1).push(row));
            crate::store::lemma_filter_push(
                pre.links@.take(i3 as int - 1),
                row,
                (|l: StarLink| !system_child(pre, sector_id, l.a_id) && !system_child(
                    pre,
                    sector_id,
                    l.b_id,
                )),
            );
        }
    }

    g.systems = kept_systems;
    g.objects = kept_objects;
    g.links = kept_links;
    proof {
        assert(pre.objects@.take(n2 as int) =~= pre.objects@);
        assert(pre.links@.take(n3 as int) =~= pre.links@);
        assert(delete_systems_post(pre, *g, sector_id, count as int));
        lemma_delete_systems_wf(pre, *g, sector_id, count as int);
    }
    Ok(count)
}


} // verus!
