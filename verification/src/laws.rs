use vstd::prelude::*;
use crate::models::{GalaxyObject, GalaxyObjectType, StarLink, StarSector, StarSectorFuture,
    StarSystem};
use crate::store::{Galaxy, future_present, in_subtree, lemma_filter_drop_all,
    lemma_filter_keep_all, lemma_subtree_ge, lemma_subtree_linear, sector_present};
use crate::galaxy_objects::{batch_futures, batch_objects, child_count, child_kind, delete_post,
    doomed, expand_post, fulfill_post, lemma_kept_rows_not_doomed, link_target, links_batch_ok,
    star_branch, sub_radius_of, sub_stars_of, systems_batch_ok};

verus! {

/// Every id older than a freshly expanded root lies outside the root's
/// subtree and outside the reach of its deletion.
proof fn lemma_low_ids_survive(
    pre: Galaxy,
    mid: Galaxy,
    s: StarSector,
    stars: u64,
    radius: u64,
    parent: Option<i32>,
)
    requires
        pre.wf(),
        expand_post(pre, mid, s, stars, radius, parent),
    ensures
        forall|x: i32| x < s.id ==> !in_subtree(mid.sectors@, s.id, x),
        forall|x: i32| x < s.id ==> !doomed(mid, s.id, x),
{
    let root = s.id;
    let count = child_count(stars);
    let first = (pre.next_id + 1) as i32;
    assert forall|x: i32| x < root implies !in_subtree(mid.sectors@, root, x) by {
        if in_subtree(mid.sectors@, root, x) {
            lemma_subtree_ge(mid.sectors@, root, x);
        }
    }
    assert forall|x: i32| x < root implies !doomed(mid, root, x) by {
        if exists|m: int|
            0 <= m < mid.futures@.len() && (#[trigger] mid.futures@[m]).id == x && in_subtree(
                mid.sectors@,
                root,
                mid.futures@[m].parent_id,
            ) {
            let m = choose|m: int|
                0 <= m < mid.futures@.len() && (#[trigger] mid.futures@[m]).id == x && in_subtree(
                    mid.sectors@,
                    root,
                    mid.futures@[m].parent_id,
                );
            if m < pre.futures@.len() {
                assert(mid.futures@[m] == pre.futures@[m]);
                let w = choose|w: int|
                    0 <= w < pre.objects@.len() && pre.objects@[w].id == pre.futures@[m].parent_id
                        && pre.objects@[w].obj_type == GalaxyObjectType::Sector;
                assert(pre.futures@[m].parent_id < root);
            } else {
                assert(!star_branch(stars));
                assert(mid.futures@[m].id == (first + (m - pre.futures@.len())) as i32);
            }
        }
        if exists|m: int|
            0 <= m < mid.systems@.len() && (#[trigger] mid.systems@[m]).id == x && in_subtree(
                mid.sectors@,
                root,
                mid.systems@[m].sector_id,
            ) {
            let m = choose|m: int|
                0 <= m < mid.systems@.len() && (#[trigger] mid.systems@[m]).id == x && in_subtree(
                    mid.sectors@,
                    root,
                    mid.systems@[m].sector_id,
                );
            if m < pre.systems@.len() {
                assert(mid.systems@[m] == pre.systems@[m]);
                let w = choose|w: int|
                    0 <= w < pre.objects@.len() && pre.objects@[w].id == pre.systems@[m].sector_id
                        && pre.objects@[w].obj_type == GalaxyObjectType::Sector;
                assert(pre.systems@[m].sector_id < root);
            } else {
                if star_branch(stars) {
                    let added = choose|added: Seq<StarSystem>|
                        mid.systems@ == pre.systems@ + added && systems_batch_ok(
                            added,
                            first,
                            count,
                            s.id,
                        );
                    assert(mid.systems@[m] == added[m - pre.systems@.len()]);
                    assert(mid.systems@[m].id == first + (m - pre.systems@.len()));
                }
            }
        }
    }
}

/// The root and every child of a fresh expansion batch fall to the
/// deletion of the root.
proof fn lemma_batch_doomed(
    pre: Galaxy,
    mid: Galaxy,
    s: StarSector,
    stars: u64,
    radius: u64,
    parent: Option<i32>,
)
    requires
        pre.wf(),
        expand_post(pre, mid, s, stars, radius, parent),
    ensures
        doomed(mid, s.id, s.id),
        forall|k: int|
            0 <= k < child_count(stars) ==> #[trigger] doomed(
                mid,
                s.id,
                (((pre.next_id + 1) as i32) + k) as i32,
            ),
{
    let root = s.id;
    let count = child_count(stars);
    let first = (pre.next_id + 1) as i32;
    assert forall|k: int|
        0 <= k < count implies #[trigger] doomed(mid, root, ((first + k) as i32)) by {
        if star_branch(stars) {
            let added = choose|added: Seq<StarSystem>|
                mid.systems@ == pre.systems@ + added && systems_batch_ok(
                    added,
                    first,
                    count,
                    s.id,
                );
            assert(mid.systems@[pre.systems@.len() + k] == added[k]);
            assert(added[k].id == first + k && added[k].sector_id == root);
        } else {
            let bf = batch_futures(first, count, s.id, sub_stars_of(stars), sub_radius_of(radius));
            assert(mid.futures@[pre.futures@.len() + k] == bf[k]);
            assert(bf[k].id == (first + k) as i32 && bf[k].parent_id == root);
        }
    }
}

/// Law of conservation across one round trip: expanding a sector and
/// then deleting it leaves every relation of the store exactly as it
/// was, the galaxy object count and the link count included.
pub proof fn lemma_expand_delete_round_trip(
    pre: Galaxy,
    mid: Galaxy,
    post: Galaxy,
    s: StarSector,
    stars: u64,
    radius: u64,
    parent: Option<i32>,
)
    requires
        pre.wf(),
        expand_post(pre, mid, s, stars, radius, parent),
        delete_post(mid, post, s.id),
    ensures
        post.objects@ == pre.objects@,
        post.links@ == pre.links@,
        post.sectors@ == pre.sectors@,
        post.futures@ == pre.futures@,
        post.systems@ == pre.systems@,
{
    lemma_round_trip_sectors(pre, mid, post, s, stars, radius, parent);
    lemma_round_trip_futures(pre, mid, post, s, stars, radius, parent);
    lemma_round_trip_systems(pre, mid, post, s, stars, radius, parent);
    lemma_round_trip_objects(pre, mid, post, s, stars, radius, parent);
    lemma_round_trip_links(pre, mid, post, s, stars, radius, parent);
}

/// The sector relation is restored by the round trip.
#[verifier::spinoff_prover]
proof fn lemma_round_trip_sectors(
    pre: Galaxy,
    mid: Galaxy,
    post: Galaxy,
    s: StarSector,
    stars: u64,
    radius: u64,
    parent: Option<i32>,
)
    requires
        pre.wf(),
        expand_post(pre, mid, s, stars, radius, parent),
        delete_post(mid, post, s.id),
    ensures
        post.sectors@ == pre.sectors@,
{
    let root = s.id;
    let keep_sec = |row: StarSector| !in_subtree(mid.sectors@, root, row.id);
    lemma_low_ids_survive(pre, mid, s, stars, radius, parent);
    assert(mid.sectors@ =~= pre.sectors@ + seq![s]);
    Seq::filter_distributes_over_add(pre.sectors@, seq![s], keep_sec);
    assert forall|i: int| 0 <= i < pre.sectors@.len() implies keep_sec(#[trigger] pre.sectors@[i])
        by {
        let w = choose|w: int|
            0 <= w < pre.objects@.len() && pre.objects@[w].id == pre.sectors@[i].id
                && pre.objects@[w].obj_type == GalaxyObjectType::Sector;
        assert(pre.sectors@[i].id < root);
    }
    lemma_filter_keep_all(pre.sectors@, keep_sec);
    lemma_filter_drop_all(seq![s], keep_sec);
    assert(post.sectors@ =~= pre.sectors@);
}

/// The future relation is restored by the round trip.
#[verifier::spinoff_prover]
proof fn lemma_round_trip_futures(
    pre: Galaxy,
    mid: Galaxy,
    post: Galaxy,
    s: StarSector,
    stars: u64,
    radius: u64,
    parent: Option<i32>,
)
    requires
        pre.wf(),
        expand_post(pre, mid, s, stars, radius, parent),
        delete_post(mid, post, s.id),
    ensures
        post.futures@ == pre.futures@,
{
    let root = s.id;
    let count = child_count(stars);
    let first = (pre.next_id + 1) as i32;
    let keep_fut = |row: StarSectorFuture| !in_subtree(mid.sectors@, root, row.parent_id);
    lemma_low_ids_survive(pre, mid, s, stars, radius, parent);
    assert forall|i: int| 0 <= i < pre.futures@.len() implies keep_fut(#[trigger] pre.futures@[i])
        by {
        let w = choose|w: int|
            0 <= w < pre.objects@.len() && pre.objects@[w].id == pre.futures@[i].parent_id
                && pre.objects@[w].obj_type == GalaxyObjectType::Sector;
        assert(pre.futures@[i].parent_id < root);
    }
    if star_branch(stars) {
        assert(mid.futures@ == pre.futures@);
        lemma_filter_keep_all(mid.futures@, keep_fut);
        assert(post.futures@ =~= pre.futures@);
    } else {
        let bf = batch_futures(first, count, s.id, sub_stars_of(stars), sub_radius_of(radius));
        Seq::filter_distributes_over_add(pre.futures@, bf, keep_fut);
        lemma_filter_keep_all(pre.futures@, keep_fut);
        assert forall|k: int| 0 <= k < bf.len() implies !keep_fut(#[trigger] bf[k]) by {
            assert(bf[k].parent_id == root);
        }
        lemma_filter_drop_all(bf, keep_fut);
        assert(post.futures@ =~= pre.futures@);
    }
}

/// The system relation is restored by the round trip.
#[verifier::spinoff_prover]
proof fn lemma_round_trip_systems(
    pre: Galaxy,
    mid: Galaxy,
    post: Galaxy,
    s: StarSector,
    stars: u64,
    radius: u64,
    parent: Option<i32>,
)
    requires
        pre.wf(),
        expand_post(pre, mid, s, stars, radius, parent),
        delete_post(mid, post, s.id),
    ensures
        post.systems@ == pre.systems@,
{
    let root = s.id;
    let count = child_count(stars);
    let first = (pre.next_id + 1) as i32;
    let keep_sys = |row: StarSystem| !in_subtree(mid.sectors@, root, row.sector_id);
    lemma_low_ids_survive(pre, mid, s, stars, radius, parent);
    assert forall|i: int| 0 <= i < pre.systems@.len() implies keep_sys(#[trigger] pre.systems@[i])
        by {
        let w = choose|w: int|
            0 <= w < pre.objects@.len() && pre.objects@[w].id == pre.systems@[i].sector_id
                && pre.objects@[w].obj_type == GalaxyObjectType::Sector;
        assert(pre.systems@[i].sector_id < root);
    }
    if star_branch(stars) {
        let added = choose|added: Seq<StarSystem>|
            mid.systems@ == pre.systems@ + added && systems_batch_ok(added, first, count, s.id);
        Seq::filter_distributes_over_add(pre.systems@, added, keep_sys);
        lemma_filter_keep_all(pre.systems@, keep_sys);
        assert forall|k: int| 0 <= k < added.len() implies !keep_sys(#[trigger] added[k]) by {
            assert(added[k].sector_id == root);
        }
        lemma_filter_drop_all(added, keep_sys);
        assert(post.systems@ =~= pre.systems@);
    } else {
        assert(mid.systems@ == pre.systems@);
        lemma_filter_keep_all(mid.systems@, keep_sys);
        assert(post.systems@ =~= pre.systems@);
    }
}

/// The galaxy object relation is restored by the round trip.
#[verifier::spinoff_prover]
proof fn lemma_round_trip_objects(
    pre: Galaxy,
    mid: Galaxy,
    post: Galaxy,
    s: StarSector,
    stars: u64,
    radius: u64,
    parent: Option<i32>,
)
    requires
        pre.wf(),
        expand_post(pre, mid, s, stars, radius, parent),
        delete_post(mid, post, s.id),
    ensures
        post.objects@ == pre.objects@,
{
    let root = s.id;
    let count = child_count(stars);
    let t = child_kind(stars);
    let first = (pre.next_id + 1) as i32;
    let keep_obj = |o: GalaxyObject| !doomed(mid, root, o.id);
    let sobj = GalaxyObject { id: pre.next_id, obj_type: GalaxyObjectType::Sector };
    lemma_low_ids_survive(pre, mid, s, stars, radius, parent);
    lemma_batch_doomed(pre, mid, s, stars, radius, parent);
    let newobjs = seq![sobj] + batch_objects(first, count, t);
    assert(mid.objects@ =~= pre.objects@ + newobjs);
    Seq::filter_distributes_over_add(pre.objects@, newobjs, keep_obj);
    assert forall|i: int| 0 <= i < pre.objects@.len() implies keep_obj(#[trigger] pre.objects@[i])
        by {
        assert(pre.objects@[i].id < root);
    }
    lemma_filter_keep_all(pre.objects@, keep_obj);
    assert forall|k: int| 0 <= k < newobjs.len() implies !keep_obj(#[trigger] newobjs[k]) by {
        if k == 0 {
            assert(newobjs[k] == sobj);
            assert(in_subtree(mid.sectors@, root, root));
        } else {
            assert(newobjs[k] == batch_objects(first, count, t)[k - 1]);
            assert(newobjs[k].id == (first + (k - 1)) as i32);
            assert(doomed(mid, root, (((pre.next_id + 1) as i32) + (k - 1)) as i32));
        }
    }
    lemma_filter_drop_all(newobjs, keep_obj);
    assert(post.objects@ =~= pre.objects@);
}

/// The link relation is restored by the round trip.
#[verifier::spinoff_prover]
proof fn lemma_round_trip_links(
    pre: Galaxy,
    mid: Galaxy,
    post: Galaxy,
    s: StarSector,
    stars: u64,
    radius: u64,
    parent: Option<i32>,
)
    requires
        pre.wf(),
        expand_post(pre, mid, s, stars, radius, parent),
        delete_post(mid, post, s.id),
    ensures
        post.links@ == pre.links@,
{
    let root = s.id;
    let count = child_count(stars);
    let t = child_kind(stars);
    let first = (pre.next_id + 1) as i32;
    let keep_lnk = |l: StarLink| !doomed(mid, root, l.a_id) && !doomed(mid, root, l.b_id);
    lemma_low_ids_survive(pre, mid, s, stars, radius, parent);
    lemma_batch_doomed(pre, mid, s, stars, radius, parent);
    let ladd = choose|ladd: Seq<StarLink>|
        mid.links@ == pre.links@ + ladd && links_batch_ok(
            ladd,
            pre.next_link_id,
            first,
            count,
            t,
            star_branch(stars),
            link_target(stars),
        ) && mid.next_link_id == pre.next_link_id + ladd.len();
    Seq::filter_distributes_over_add(pre.links@, ladd, keep_lnk);
    assert forall|i: int| 0 <= i < pre.links@.len() implies keep_lnk(#[trigger] pre.links@[i]) by {
        let wa = choose|w: int|
            0 <= w < pre.objects@.len() && pre.objects@[w].id == pre.links@[i].a_id
                && pre.objects@[w].obj_type == pre.links@[i].a_obj_type;
        let wb = choose|w: int|
            0 <= w < pre.objects@.len() && pre.objects@[w].id == pre.links@[i].b_id
                && pre.objects@[w].obj_type == pre.links@[i].b_obj_type;
        assert(pre.links@[i].a_id < root && pre.links@[i].b_id < root);
    }
    lemma_filter_keep_all(pre.links@, keep_lnk);
    assert forall|k: int| 0 <= k < ladd.len() implies !keep_lnk(#[trigger] ladd[k]) by {
        assert(first <= ladd[k].a_id < first + count);
        assert(doomed(mid, root, (((pre.next_id + 1) as i32) + (ladd[k].a_id - first)) as i32));
        assert((((pre.next_id + 1) as i32) + (ladd[k].a_id - first)) as i32 == ladd[k].a_id);
    }
    lemma_filter_drop_all(ladd, keep_lnk);
    assert(post.links@ =~= pre.links@);
}

/// Law of the one-way transition: after a fulfillment, no future is
/// left under the fulfilled id, so a second fulfillment of the same id
/// is exactly the NotFound failure.
pub proof fn lemma_second_fulfill_not_found(pre: Galaxy, post: Galaxy, fid: i32, s: StarSector)
    requires
        fulfill_post(pre, post, fid, s),
    ensures
        !future_present(post.futures@, fid),
{
}

/// Law of sibling isolation: deleting one sector never removes a system
/// of an independent sibling subtree, nor a link whose two endpoints
/// both escape the deletion.
pub proof fn lemma_delete_preserves_siblings(pre: Galaxy, post: Galaxy, root: i32, other: i32)
    requires
        pre.wf(),
        sector_present(pre.sectors@, root),
        delete_post(pre, post, root),
        !in_subtree(pre.sectors@, root, other),
        !in_subtree(pre.sectors@, other, root),
    ensures
        forall|i: int|
            0 <= i < pre.systems@.len() && in_subtree(
                pre.sectors@,
                other,
                (#[trigger] pre.systems@[i]).sector_id,
            ) ==> post.systems@.contains(pre.systems@[i]) && !doomed(pre, root, pre.systems@[i].id),
        forall|j: int|
            0 <= j < pre.links@.len() && !doomed(pre, root, (#[trigger] pre.links@[j]).a_id)
                && !doomed(pre, root, pre.links@[j].b_id) ==> post.links@.contains(pre.links@[j]),
{
    let keep_sys = |row: StarSystem| !in_subtree(pre.sectors@, root, row.sector_id);
    let keep_lnk = |l: StarLink| !doomed(pre, root, l.a_id) && !doomed(pre, root, l.b_id);
    lemma_kept_rows_not_doomed(pre, root);
    assert forall|i: int|
        0 <= i < pre.systems@.len() && in_subtree(
            pre.sectors@,
            other,
            (#[trigger] pre.systems@[i]).sector_id,
        ) implies post.systems@.contains(pre.systems@[i]) && !doomed(
        pre,
        root,
        pre.systems@[i].id,
    ) by {
        assert(!in_subtree(pre.sectors@, root, pre.systems@[i].sector_id)) by {
            if in_subtree(pre.sectors@, root, pre.systems@[i].sector_id) {
                lemma_subtree_linear(pre.sectors@, root, other, pre.systems@[i].sector_id);
            }
        }
        pre.systems@.lemma_filter_contains(keep_sys, i);
    }
    assert forall|j: int|
        0 <= j < pre.links@.len() && !doomed(pre, root, (#[trigger] pre.links@[j]).a_id) && !doomed(
            pre,
            root,
            pre.links@[j].b_id,
        ) implies post.links@.contains(pre.links@[j]) by {
        pre.links@.lemma_filter_contains(keep_lnk, j);
    }
}

} // verus!
