use vstd::prelude::*;
use crate::models::{GalaxyObject, NewStarLink, link_eq};
use crate::tools::{pick_weighted, shuffle_pairs};

verus! {

/// Largest sibling batch the generator accepts.
pub const NODES_LIMIT: usize = 0x4000_0000;

/// Largest target edge count the generator accepts.
pub const LINKS_LIMIT: usize = 0x4000_0000;

/// The unstored link between two identities, first side first.
pub open spec fn link_of(a: GalaxyObject, b: GalaxyObject) -> NewStarLink {
    NewStarLink { a_id: a.id, a_obj_type: a.obj_type, b_id: b.id, b_obj_type: b.obj_type }
}

/// Some weighted node of the list carries this identity.
pub open spec fn node_in(list: Seq<(GalaxyObject, u32)>, o: GalaxyObject) -> bool {
    exists|j: int| 0 <= j < list.len() && list[j].0 == o
}

/// Both sides of the link are identities of the list.
pub open spec fn link_nodes_in(l: NewStarLink, list: Seq<(GalaxyObject, u32)>) -> bool {
    node_in(list, l.side_a_spec()) && node_in(list, l.side_b_spec())
}

/// The requested edge count, capped by how many distinct undirected
/// edges `n` nodes allow.
pub open spec fn capped_target(n: int, amount: int) -> int {
    let maxl = n * (n - 1) / 2;
    if amount < maxl {
        amount
    } else {
        maxl
    }
}

/// How many edges the sampling pass owes beyond the `n - 1` edges of the
/// connectivity pass, when repetition is allowed.
pub open spec fn extra_links(n: int, amount: int) -> int {
    if amount > n - 1 {
        amount - (n - 1)
    } else {
        0
    }
}

/// Two lists with equal multisets carry the same identities.
pub proof fn lemma_same_multiset_same_nodes(a: Seq<(GalaxyObject, u32)>, b: Seq<(GalaxyObject, u32)>)
    requires
        a.to_multiset() == b.to_multiset(),
    ensures
        forall|o: GalaxyObject| node_in(a, o) == node_in(b, o),
{
    broadcast use vstd::seq_lib::group_to_multiset_ensures;

    assert forall|o: GalaxyObject| node_in(a, o) implies node_in(b, o) by {
        let j = choose|j: int| 0 <= j < a.len() && a[j].0 == o;
        assert(a.contains(a[j]));
        assert(a.to_multiset().count(a[j]) > 0);
        assert(b.to_multiset().count(a[j]) > 0);
        assert(b.contains(a[j]));
        let k = choose|k: int| 0 <= k < b.len() && b[k] == a[j];
        assert(b[k].0 == o);
    }
    assert forall|o: GalaxyObject| node_in(b, o) implies node_in(a, o) by {
        let j = choose|j: int| 0 <= j < b.len() && b[j].0 == o;
        assert(b.contains(b[j]));
        assert(b.to_multiset().count(b[j]) > 0);
        assert(a.to_multiset().count(b[j]) > 0);
        assert(a.contains(b[j]));
        let k = choose|k: int| 0 <= k < a.len() && a[k] == b[j];
        assert(a[k].0 == o);
    }
}

/// Pairwise-distinct identities survive a permutation of the list.
pub proof fn lemma_same_multiset_distinct(a: Seq<(GalaxyObject, u32)>, b: Seq<(GalaxyObject, u32)>)
    requires
        a.to_multiset() == b.to_multiset(),
        forall|i: int, j: int| 0 <= i < j < a.len() ==> a[i].0 != a[j].0,
    ensures
        forall|i: int, j: int| 0 <= i < j < b.len() ==> b[i].0 != b[j].0,
{
    broadcast use vstd::seq_lib::group_to_multiset_ensures;

    assert forall|i: int, j: int| 0 <= i < j < b.len() implies b[i].0 != b[j].0 by {
        if b[i].0 == b[j].0 {
            if b[i] == b[j] {
                assert(!b.no_duplicates());
                assert(a.no_duplicates()) by {
                    assert forall|x: int, y: int|
                        0 <= x < a.len() && 0 <= y < a.len() && x != y implies a[x] != a[y] by {
                        if x < y {
                            assert(a[x].0 != a[y].0);
                        } else {
                            assert(a[y].0 != a[x].0);
                        }
                    }
                }
                a.lemma_multiset_has_no_duplicates();
                b.lemma_multiset_has_no_duplicates_conv();
            } else {
                assert(b.contains(b[i]));
                assert(b.contains(b[j]));
                assert(b.to_multiset().count(b[i]) > 0);
                assert(b.to_multiset().count(b[j]) > 0);
                assert(a.to_multiset().count(b[i]) > 0);
                assert(a.to_multiset().count(b[j]) > 0);
                assert(a.contains(b[i]));
                assert(a.contains(b[j]));
                let x = choose|x: int| 0 <= x < a.len() && a[x] == b[i];
                let y = choose|y: int| 0 <= y < a.len() && a[y] == b[j];
                assert(x != y);
                if x < y {
                    assert(a[x].0 != a[y].0);
                } else {
                    assert(a[y].0 != a[x].0);
                }
            }
        }
    }
}

/// Whether some stored candidate equals the link, in the
/// orientation-independent sense.
fn links_contain(v: &Vec<NewStarLink>, l: &NewStarLink) -> (r: bool)
    ensures
        r == exists|m: int| 0 <= m < v@.len() && link_eq(#[trigger] v@[m], *l),
{
    let n = v.len();
    let mut i: usize = 0;
    while i < n
        invariant
            n == v@.len(),
            i <= n,
            forall|m: int| 0 <= m < i ==> !link_eq(#[trigger] v@[m], *l),
        decreases n - i,
    {
        if v[i] == *l {
            return true;
        }
        i += 1;
    }
    false
}

/// A weighted draw of one index of the list; an undrawable weight list
/// (all weights zero) falls back to the first node.
fn pick_index(ws: &Vec<u32>) -> (i: usize)
    requires
        1 <= ws@.len() <= 0x4000_0000,
    ensures
        i < ws@.len(),
{
    match pick_weighted(ws) {
        Some(i) => i,
        None => 0,
    }
}

/// The randomized link-graph generator.
///
/// The nodes are shuffled, a connectivity pass links each consecutive
/// pair of the shuffled order (so the result always spans the batch),
/// and a weighted sampling pass then draws endpoint pairs until the
/// target is met or the attempt budget (the square of the still owed
/// count) runs out. With `unique` set, a draw is rejected when both
/// endpoints coincide or an equivalent edge was already taken; without
/// it every draw is kept, self-links included.
pub fn generate_links(
    elements: &mut Vec<(GalaxyObject, u32)>,
    link_amount: usize,
    unique: bool,
) -> (r: Vec<NewStarLink>)
    requires
        1 <= old(elements)@.len() <= NODES_LIMIT,
        link_amount <= LINKS_LIMIT,
        unique ==> capped_target(old(elements)@.len() as int, link_amount as int)
            >= old(elements)@.len() - 1,
    ensures
        final(elements)@.len() == old(elements)@.len(),
        final(elements)@.to_multiset() == old(elements)@.to_multiset(),
        r@.len() >= old(elements)@.len() - 1,
        forall|i: int|
            0 <= i < final(elements)@.len() - 1 ==> r@[i] == link_of(
                final(elements)@[i].0,
                final(elements)@[i + 1].0,
            ),
        forall|k: int| 0 <= k < r@.len() ==> link_nodes_in(#[trigger] r@[k], old(elements)@),
        !unique ==> r@.len() == old(elements)@.len() - 1 + extra_links(
            old(elements)@.len() as int,
            link_amount as int,
        ),
        unique ==> r@.len() <= capped_target(old(elements)@.len() as int, link_amount as int),
        unique ==> forall|k: int|
            old(elements)@.len() - 1 <= k < r@.len() ==> (#[trigger] r@[k]).side_a_spec()
                != r@[k].side_b_spec(),
        unique ==> forall|k: int, m: int|
            old(elements)@.len() - 1 <= k < r@.len() && 0 <= m < k ==> !link_eq(r@[m], r@[k]),
        forall|i: int, j: int|
            0 <= i < final(elements)@.len() && 0 <= j < final(elements)@.len()
                ==> #[trigger] reachable(r@, final(elements)@[i].0, final(elements)@[j].0),
{
    shuffle_pairs(elements);
    let ghost els = elements@;
    let n = elements.len();
    let mut result: Vec<NewStarLink> = Vec::new();

    // Connectivity pass: a path along the shuffled order.
    let mut i: usize = 0;
    while i + 1 < n
        invariant
            elements@ == els,
            n == els.len(),
            1 <= n <= NODES_LIMIT,
            i + 1 <= n,
            result@.len() == i,
            forall|k: int| 0 <= k < i ==> result@[k] == link_of(els[k].0, els[k + 1].0),
        decreases n - i,
    {
        let a = elements[i].0;
        let b = elements[i + 1].0;
        result.push(NewStarLink::new(&a, &b));
        i += 1;
    }
    let min_links = n - 1;
    assert(result@.len() == min_links);
    assert(forall|k: int|
        0 <= k < result@.len() ==> link_nodes_in(#[trigger] result@[k], els));

    // How many edges the sampling pass still owes.
    let n64 = n as u64;
    let la64 = link_amount as u64;
    let links_owed: u64 = if unique {
        proof {
            assert((n64 as int) * ((n64 as int) - 1) <= 0x1000_0000_0000_0000) by (nonlinear_arith)
                requires
                    1 <= n64 as int <= 0x4000_0000,
            ;
        }
        let maxl: u64 = n64 * (n64 - 1) / 2;
        let capped = if la64 < maxl {
            la64
        } else {
            maxl
        };
        capped - (n64 - 1)
    } else {
        if la64 > n64 - 1 {
            la64 - (n64 - 1)
        } else {
            0
        }
    };
    assert(unique ==> min_links + links_owed == capped_target(n as int, link_amount as int));
    assert(!unique ==> links_owed == extra_links(n as int, link_amount as int));

    // Weight list for the sampling pass.
    let mut ws: Vec<u32> = Vec::new();
    let mut j: usize = 0;
    while j < n
        invariant
            elements@ == els,
            n == els.len(),
            j <= n,
            ws@.len() == j,
        decreases n - j,
    {
        ws.push(elements[j].1);
        j += 1;
    }

    // Weighted sampling pass, bounded by the attempt budget.
    let mut links_left: u64 = links_owed;
    proof {
        assert((links_owed as int) * (links_owed as int) <= 0x1000_0000_0000_0000
            && (links_owed as int) * (links_owed as int) >= links_owed as int) by (nonlinear_arith)
            requires
                0 <= links_owed as int <= 0x4000_0000,
        ;
    }
    let mut attempts: u64 = links_owed * links_owed;
    let ghost owed = links_owed;
    while links_left > 0 && attempts > 0
        invariant
            elements@ == els,
            n == els.len(),
            1 <= n <= NODES_LIMIT,
            ws@.len() == n,
            min_links == n - 1,
            owed <= LINKS_LIMIT,
            links_left <= owed,
            result@.len() == min_links + (owed - links_left),
            !unique ==> attempts >= links_left,
            forall|k: int| 0 <= k < min_links ==> result@[k] == link_of(els[k].0, els[k + 1].0),
            forall|k: int| 0 <= k < result@.len() ==> link_nodes_in(#[trigger] result@[k], els),
            unique ==> forall|k: int|
                min_links <= k < result@.len() ==> (#[trigger] result@[k]).side_a_spec()
                    != result@[k].side_b_spec(),
            unique ==> forall|k: int, m: int|
                min_links <= k < result@.len() && 0 <= m < k ==> !link_eq(result@[m], result@[k]),
        decreases attempts,
    {
        let ia = pick_index(&ws);
        let ib = pick_index(&ws);
        let a = elements[ia].0;
        let b = elements[ib].0;
        let link = NewStarLink::new(&a, &b);
        let keep = if !unique {
            true
        } else {
            a != b && !links_contain(&result, &link)
        };
        if keep {
            result.push(link);
            links_left -= 1;
        }
        attempts -= 1;
    }
    proof {
        lemma_same_multiset_same_nodes(els, old(elements)@);
        lemma_links_span_batch(els, result@);
    }
    result
}

/// The link joins exactly these two identities, in either orientation.
pub open spec fn connects(l: NewStarLink, x: GalaxyObject, y: GalaxyObject) -> bool {
    ||| (l.side_a_spec() == x && l.side_b_spec() == y)
    ||| (l.side_a_spec() == y && l.side_b_spec() == x)
}

/// x reaches y over the links in at most n hops.
pub open spec fn linked(links: Seq<NewStarLink>, x: GalaxyObject, y: GalaxyObject, n: nat) -> bool
    decreases n,
{
    x == y || (n > 0 && exists|k: int, z: GalaxyObject|
        0 <= k < links.len() && #[trigger] connects(links[k], x, z) && linked(
            links,
            z,
            y,
            (n - 1) as nat,
        ))
}

/// x reaches y over the links in some number of hops.
pub open spec fn reachable(links: Seq<NewStarLink>, x: GalaxyObject, y: GalaxyObject) -> bool {
    exists|n: nat| linked(links, x, y, n)
}

/// Walking the spanning path of the connectivity pass joins any two of
/// its nodes.
proof fn lemma_path_linked(els: Seq<(GalaxyObject, u32)>, r: Seq<NewStarLink>, i: int, j: int)
    requires
        r.len() >= els.len() - 1,
        forall|k: int| 0 <= k < els.len() - 1 ==> r[k] == link_of(els[k].0, els[k + 1].0),
        0 <= i < els.len(),
        0 <= j < els.len(),
    ensures
        linked(r, els[i].0, els[j].0, (if i <= j { j - i } else { i - j }) as nat),
    decreases (if i <= j { j - i } else { i - j }),
{
    if i < j {
        assert(connects(r[i], els[i].0, els[i + 1].0));
        lemma_path_linked(els, r, i + 1, j);
    } else if j < i {
        assert(connects(r[i - 1], els[i].0, els[i - 1].0));
        lemma_path_linked(els, r, i - 1, j);
    }
}

/// Law of guaranteed connectivity: one batch of generated links joins
/// every pair of its nodes, whatever the sampling pass added.
pub proof fn lemma_links_span_batch(els: Seq<(GalaxyObject, u32)>, r: Seq<NewStarLink>)
    requires
        r.len() >= els.len() - 1,
        forall|k: int| 0 <= k < els.len() - 1 ==> r[k] == link_of(els[k].0, els[k + 1].0),
    ensures
        forall|i: int, j: int|
            0 <= i < els.len() && 0 <= j < els.len() ==> #[trigger] reachable(
                r,
                els[i].0,
                els[j].0,
            ),
{
    assert forall|i: int, j: int|
        0 <= i < els.len() && 0 <= j < els.len() implies #[trigger] reachable(
        r,
        els[i].0,
        els[j].0,
    ) by {
        lemma_path_linked(els, r, i, j);
        let n = (if i <= j { j - i } else { i - j }) as nat;
        assert(linked(r, els[i].0, els[j].0, n));
    }
}


} // verus!
