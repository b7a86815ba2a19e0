//! Hierarchical grouping: a polygon id encodes its parent region as the
//! prefix before the first `-`.  Polygons are partitioned by that parent key,
//! and a parent-level envelope is the merge of all same-id child envelopes.

use crate::models::{spec_merge, spec_empty_env, Envelope, Polygon};
use vstd::prelude::*;

verus! {

/// Index of the first `-` in the id, or the id's length when there is none.
pub open spec fn first_sep(id: Seq<char>) -> int
    decreases id.len(),
{
    if id.len() == 0 {
        0
    } else if id[0] == '-' {
        0
    } else {
        1 + first_sep(id.subrange(1, id.len() as int))
    }
}

/// Whether the id carries a parent separator at all.
pub open spec fn spec_has_sep(id: Seq<char>) -> bool {
    exists|i: int| 0 <= i < id.len() && id[i] == '-'
}

/// The parent (state) key of an id: everything before the first `-`.
/// Meaningful only when `spec_has_sep` holds.
pub open spec fn spec_state_of(id: Seq<char>) -> Seq<char> {
    id.take(first_sep(id))
}

/// `first_sep` points at the first separator: nothing before it is one, and
/// it lies inside the id exactly when the id has a separator.
pub proof fn lemma_first_sep(id: Seq<char>)
    ensures
        0 <= first_sep(id) <= id.len(),
        first_sep(id) < id.len() ==> id[first_sep(id)] == '-',
        forall|j: int| 0 <= j < first_sep(id) ==> id[j] != '-',
        spec_has_sep(id) <==> first_sep(id) < id.len(),
    decreases id.len(),
{
    if id.len() > 0 && id[0] != '-' {
        let tail = id.subrange(1, id.len() as int);
        lemma_first_sep(tail);
        assert forall|j: int| 0 <= j < first_sep(id) implies id[j] != '-' by {
            if j > 0 {
                assert(tail[j - 1] == id[j]);
            }
        }
        if spec_has_sep(id) {
            let i = choose|i: int| 0 <= i < id.len() && id[i] == '-';
            assert(i > 0);
            assert(tail[i - 1] == '-');
        }
        if spec_has_sep(tail) {
            let i = choose|i: int| 0 <= i < tail.len() && tail[i] == '-';
            assert(id[i + 1] == '-');
        }
    }
}

/// The parent key of an id: the substring before the first `-`, or nothing
/// for an id that has no separator and therefore no parent.
pub fn find_state_id(county_id: &str) -> (r: Option<String>)
    ensures
        match r {
            Some(s) => spec_has_sep(county_id@) && s@ == spec_state_of(county_id@),
            None => !spec_has_sep(county_id@),
        },
{
    proof {
        lemma_first_sep(county_id@);
    }
    let n = county_id.unicode_len();
    let mut i: usize = 0;
    while i < n
        invariant
            n == county_id@.len(),
            i <= n,
            first_sep(county_id@) >= i,
            forall|j: int| 0 <= j < first_sep(county_id@) ==> county_id@[j] != '-',
            first_sep(county_id@) < n ==> county_id@[first_sep(county_id@)] == '-',
            spec_has_sep(county_id@) <==> first_sep(county_id@) < n,
        decreases n - i,
    {
        if county_id.get_char(i) == '-' {
            assert(first_sep(county_id@) == i);
            let prefix = county_id.substring_char(0, i);
            return Some(prefix.to_owned());
        }
        i = i + 1;
    }
    None
}

/// Whether index k of `polys` belongs to the parent keyed `sid`.
pub open spec fn hit_sid(polys: Seq<Polygon>, sid: Seq<char>, k: int) -> bool {
    spec_has_sep(polys[k].id@) && spec_state_of(polys[k].id@) == sid
}

/// The indices (among the first m) of the polygons whose parent key is
/// `sid`, in increasing order.
pub open spec fn group_idx_upto(polys: Seq<Polygon>, sid: Seq<char>, m: int) -> Seq<usize>
    decreases m,
{
    if m <= 0 {
        Seq::empty()
    } else {
        let rest = group_idx_upto(polys, sid, m - 1);
        if hit_sid(polys, sid, m - 1) {
            rest.push((m - 1) as usize)
        } else {
            rest
        }
    }
}

/// A group's index list holds exactly the matching in-range indices, each
/// once.
pub proof fn lemma_group_idx_membership(polys: Seq<Polygon>, sid: Seq<char>, m: int)
    requires
        0 <= m <= polys.len(),
        m <= usize::MAX,
    ensures
        group_idx_upto(polys, sid, m).no_duplicates(),
        forall|v: usize|
            group_idx_upto(polys, sid, m).contains(v) <==> (v < m && hit_sid(polys, sid, v as int)),
        forall|t: int|
            0 <= t < group_idx_upto(polys, sid, m).len() ==> group_idx_upto(polys, sid, m)[t] < m,
    decreases m,
{
    if m > 0 {
        lemma_group_idx_membership(polys, sid, m - 1);
        let rest = group_idx_upto(polys, sid, m - 1);
        if hit_sid(polys, sid, m - 1) {
            let cur = rest.push((m - 1) as usize);
            assert forall|v: usize| cur.contains(v) implies (v < m && hit_sid(
                polys,
                sid,
                v as int,
            )) by {
                let t = choose|t: int| 0 <= t < cur.len() && cur[t] == v;
                if t < rest.len() {
                    assert(rest.contains(v));
                }
            }
            assert forall|v: usize| (v < m && hit_sid(polys, sid, v as int)) implies cur.contains(
                v,
            ) by {
                if v < m - 1 {
                    assert(rest.contains(v));
                    let t = choose|t: int| 0 <= t < rest.len() && rest[t] == v;
                    assert(cur[t] == v);
                } else {
                    assert(cur[cur.len() - 1] == v);
                }
            }
        } else {
            assert forall|v: usize| rest.contains(v) implies (v < m && hit_sid(
                polys,
                sid,
                v as int,
            )) by {}
        }
    }
}

/// The merged envelope of the polygons (among the first m) whose id is
/// exactly `id`: the parent-level pruning envelope grows child by child.
pub open spec fn merged_env_upto(polys: Seq<Polygon>, id: Seq<char>, m: int) -> Envelope
    decreases m,
{
    if m <= 0 {
        spec_empty_env()
    } else {
        let rest = merged_env_upto(polys, id, m - 1);
        if polys[m - 1].id@ == id {
            spec_merge(rest, polys[m - 1].envelope)
        } else {
            rest
        }
    }
}

/// Whether some polygon among the first m carries exactly this id.
pub open spec fn some_id_upto(polys: Seq<Polygon>, id: Seq<char>, m: int) -> bool {
    exists|k: int| 0 <= k < m && polys[k].id@ == id
}

/// Every one of the first m polygon ids has an entry keyed by it.
pub open spec fn ids_all_present(polys: Seq<Polygon>, r: Seq<(String, Envelope)>, m: int) -> bool {
    forall|j: int|
        0 <= j < m ==> exists|g: int|
            0 <= g < r.len() && r[g].0@ == (#[trigger] polys[j]).id@
}

/// Every one of the first m polygons has a group keyed by its parent key.
pub open spec fn sids_all_present(
    polys: Seq<Polygon>,
    groups: Seq<(String, Vec<usize>)>,
    m: int,
) -> bool {
    forall|j: int|
        0 <= j < m ==> exists|g: int|
            0 <= g < groups.len() && groups[g].0@ == spec_state_of((#[trigger] polys[j]).id@)
}

/// An id no polygon of the prefix carries has the empty merged envelope.
proof fn lemma_merged_env_absent(polys: Seq<Polygon>, id: Seq<char>, m: int)
    requires
        forall|k: int| 0 <= k < m ==> (#[trigger] polys[k]).id@ != id,
    ensures
        merged_env_upto(polys, id, m) == spec_empty_env(),
    decreases m,
{
    if m > 0 {
        lemma_merged_env_absent(polys, id, m - 1);
    }
}

/// Position of the entry keyed by this id, if one exists.
fn env_key_pos(r: &Vec<(String, Envelope)>, id: &String) -> (pos: Option<usize>)
    ensures
        match pos {
            Some(g) => g < r@.len() && r@[g as int].0@ == id@,
            None => forall|h: int| 0 <= h < r@.len() ==> r@[h].0@ != id@,
        },
{
    let n = r.len();
    let mut g: usize = 0;
    while g < n
        invariant
            n == r@.len(),
            g <= n,
            forall|h: int| 0 <= h < g ==> r@[h].0@ != id@,
        decreases n - g,
    {
        if r[g].0 == *id {
            return Some(g);
        }
        g = g + 1;
    }
    None
}

/// Merge per-polygon envelopes by id: one entry per distinct id, holding the
/// merge of every envelope recorded under that id.
pub fn build_polygon_envelopes(polygons: &Vec<Polygon>) -> (r: Vec<(String, Envelope)>)
    ensures
        forall|a: int, b: int| 0 <= a < b < r@.len() ==> r@[a].0@ != r@[b].0@,
        forall|g: int|
            0 <= g < r@.len() ==> (#[trigger] r@[g].1) == merged_env_upto(
                polygons@,
                r@[g].0@,
                polygons@.len() as int,
            ),
        forall|g: int|
            0 <= g < r@.len() ==> some_id_upto(polygons@, r@[g].0@, polygons@.len() as int),
        ids_all_present(polygons@, r@, polygons@.len() as int),
{
    let mut r: Vec<(String, Envelope)> = Vec::new();
    let n = polygons.len();
    let mut k: usize = 0;
    while k < n
        invariant
            n == polygons@.len(),
            k <= n,
            forall|a: int, b: int| 0 <= a < b < r@.len() ==> r@[a].0@ != r@[b].0@,
            forall|g: int|
                0 <= g < r@.len() ==> (#[trigger] r@[g].1) == merged_env_upto(
                    polygons@,
                    r@[g].0@,
                    k as int,
                ),
            forall|g: int| 0 <= g < r@.len() ==> some_id_upto(polygons@, r@[g].0@, k as int),
            ids_all_present(polygons@, r@, k as int),
        decreases n - k,
    {
        let ghost old_r = r@;
        proof {
            assert(ids_all_present(polygons@, old_r, k as int));
        }
        let poly_env = polygons[k].envelope;
        match env_key_pos(&r, &polygons[k].id) {
            Some(g) => {
                let (key, mut env) = r.remove(g);
                env.expand(poly_env);
                r.insert(g, (key, env));
                proof {
                    assert(r@ =~= old_r.update(g as int, (key, env)));
                    assert(forall|h: int|
                        0 <= h < r@.len() ==> (#[trigger] r@[h]).0@ == old_r[h].0@);
                    assert forall|h: int|
                        0 <= h < r@.len() implies (#[trigger] r@[h].1) == merged_env_upto(
                        polygons@,
                        r@[h].0@,
                        k as int + 1,
                    ) by {
                        if h != g {
                            assert(r@[h] == old_r[h]);
                            assert(old_r[h].0@ != polygons@[k as int].id@);
                        }
                    }
                    assert forall|j: int| 0 <= j < k + 1 implies exists|g2: int|
                        0 <= g2 < r@.len() && r@[g2].0@ == (#[trigger] polygons@[j]).id@ by {
                        if j < k {
                            let gw = choose|g2: int|
                                0 <= g2 < old_r.len() && old_r[g2].0@ == polygons@[j].id@;
                            assert(r@[gw].0@ == polygons@[j].id@);
                        } else {
                            assert(r@[g as int].0@ == polygons@[j].id@);
                        }
                    }
                    assert(ids_all_present(polygons@, r@, k as int + 1));
                }
            },
            None => {
                let mut env = Envelope::empty();
                env.expand(poly_env);
                let key = polygons[k].id.clone();
                proof {
                    assert forall|j: int| 0 <= j < k implies (#[trigger] polygons@[j]).id@
                        != polygons@[k as int].id@ by {
                        let gw = choose|g2: int|
                            0 <= g2 < old_r.len() && old_r[g2].0@ == polygons@[j].id@;
                        assert(old_r[gw].0@ != polygons@[k as int].id@);
                    }
                    lemma_merged_env_absent(polygons@, polygons@[k as int].id@, k as int);
                    crate::models::lemma_merge_empty(polygons@[k as int].envelope);
                }
                r.push((key, env));
                proof {
                    assert(forall|h: int| 0 <= h < old_r.len() ==> (#[trigger] r@[h]) == old_r[h]);
                    assert forall|h: int|
                        0 <= h < r@.len() implies (#[trigger] r@[h].1) == merged_env_upto(
                        polygons@,
                        r@[h].0@,
                        k as int + 1,
                    ) by {
                        if h < r@.len() - 1 {
                            assert(r@[h] == old_r[h]);
                        }
                    }
                    assert forall|j: int| 0 <= j < k + 1 implies exists|g2: int|
                        0 <= g2 < r@.len() && r@[g2].0@ == (#[trigger] polygons@[j]).id@ by {
                        if j < k {
                            let gw = choose|g2: int|
                                0 <= g2 < old_r.len() && old_r[g2].0@ == polygons@[j].id@;
                            assert(r@[gw].0@ == polygons@[j].id@);
                        } else {
                            assert(r@[r@.len() - 1].0@ == polygons@[j].id@);
                        }
                    }
                    assert(ids_all_present(polygons@, r@, k as int + 1));
                }
            },
        }
        k = k + 1;
    }
    r
}

/// Position of the group keyed by this id, if one exists.
pub(crate) fn group_key_pos(r: &Vec<(String, Vec<usize>)>, id: &String) -> (pos: Option<usize>)
    ensures
        match pos {
            Some(g) => g < r@.len() && r@[g as int].0@ == id@,
            None => forall|h: int| 0 <= h < r@.len() ==> r@[h].0@ != id@,
        },
{
    let n = r.len();
    let mut g: usize = 0;
    while g < n
        invariant
            n == r@.len(),
            g <= n,
            forall|h: int| 0 <= h < g ==> r@[h].0@ != id@,
        decreases n - g,
    {
        if r[g].0 == *id {
            return Some(g);
        }
        g = g + 1;
    }
    None
}

/// Partition polygons by parent key.  A polygon whose id has no separator has
/// no parent: that is a data-integrity error and fails the whole call.
pub fn build_state_id_to_counties(counties: &Vec<Polygon>) -> (r: Result<
    Vec<(String, Vec<usize>)>,
    crate::GeoError,
>)
    ensures
        match r {
            Ok(groups) => {
                &&& forall|k: int|
                    0 <= k < counties@.len() ==> spec_has_sep((#[trigger] counties@[k]).id@)
                &&& forall|a: int, b: int|
                    0 <= a < b < groups@.len() ==> groups@[a].0@ != groups@[b].0@
                &&& forall|g: int|
                    0 <= g < groups@.len() ==> (#[trigger] groups@[g].1)@ == group_idx_upto(
                        counties@,
                        groups@[g].0@,
                        counties@.len() as int,
                    )
                &&& sids_all_present(counties@, groups@, counties@.len() as int)
            },
            Err(e) => e == crate::GeoError::MissingStateId && exists|k: int|
                0 <= k < counties@.len() && !spec_has_sep((#[trigger] counties@[k]).id@),
        },
{
    let mut groups: Vec<(String, Vec<usize>)> = Vec::new();
    let n = counties.len();
    let mut k: usize = 0;
    while k < n
        invariant
            n == counties@.len(),
            k <= n,
            forall|j: int| 0 <= j < k ==> spec_has_sep((#[trigger] counties@[j]).id@),
            forall|a: int, b: int| 0 <= a < b < groups@.len() ==> groups@[a].0@ != groups@[b].0@,
            forall|g: int|
                0 <= g < groups@.len() ==> (#[trigger] groups@[g].1)@ == group_idx_upto(
                    counties@,
                    groups@[g].0@,
                    k as int,
                ),
            sids_all_present(counties@, groups@, k as int),
        decreases n - k,
    {
        let ghost old_groups = groups@;
        proof {
            assert(sids_all_present(counties@, old_groups, k as int));
        }
        let sid = match find_state_id(counties[k].id.as_str()) {
            Some(sid) => sid,
            None => {
                return Err(crate::GeoError::MissingStateId);
            },
        };
        match group_key_pos(&groups, &sid) {
            Some(g) => {
                let (key, mut members) = groups.remove(g);
                members.push(k);
                groups.insert(g, (key, members));
                proof {
                    assert(groups@ =~= old_groups.update(g as int, (key, members)));
                    assert(forall|h: int|
                        0 <= h < groups@.len() ==> (#[trigger] groups@[h]).0@ == old_groups[h].0@);
                    assert forall|h: int|
                        0 <= h < groups@.len() implies (#[trigger] groups@[h].1)@ == group_idx_upto(
                        counties@,
                        groups@[h].0@,
                        k as int + 1,
                    ) by {
                        if h != g {
                            assert(groups@[h] == old_groups[h]);
                            assert(old_groups[h].0@ != spec_state_of(counties@[k as int].id@));
                        }
                    }
                    assert forall|j: int| 0 <= j < k + 1 implies exists|g2: int|
                        0 <= g2 < groups@.len() && groups@[g2].0@ == spec_state_of(
                        (#[trigger] counties@[j]).id@,
                    ) by {
                        if j < k {
                            let gw = choose|g2: int|
                                0 <= g2 < old_groups.len() && old_groups[g2].0@ == spec_state_of(
                                    counties@[j].id@,
                                );
                            assert(groups@[gw].0@ == spec_state_of(counties@[j].id@));
                        } else {
                            assert(groups@[g as int].0@ == spec_state_of(counties@[j].id@));
                        }
                    }
                    assert(sids_all_present(counties@, groups@, k as int + 1));
                }
            },
            None => {
                let mut members: Vec<usize> = Vec::new();
                members.push(k);
                proof {
                    assert forall|j: int| 0 <= j < k implies !hit_sid(counties@, sid@, j) by {
                        if hit_sid(counties@, sid@, j) {
                            let gw = choose|g2: int|
                                0 <= g2 < old_groups.len() && old_groups[g2].0@ == spec_state_of(
                                    counties@[j].id@,
                                );
                            assert(old_groups[gw].0@ == sid@);
                        }
                    }
                    lemma_group_idx_absent(counties@, sid@, k as int);
                }
                groups.push((sid, members));
                proof {
                    assert(forall|h: int|
                        0 <= h < old_groups.len() ==> (#[trigger] groups@[h]) == old_groups[h]);
                    assert forall|h: int|
                        0 <= h < groups@.len() implies (#[trigger] groups@[h].1)@ == group_idx_upto(
                        counties@,
                        groups@[h].0@,
                        k as int + 1,
                    ) by {
                        if h < groups@.len() - 1 {
                            assert(groups@[h] == old_groups[h]);
                        }
                    }
                    assert forall|j: int| 0 <= j < k + 1 implies exists|g2: int|
                        0 <= g2 < groups@.len() && groups@[g2].0@ == spec_state_of(
                        (#[trigger] counties@[j]).id@,
                    ) by {
                        if j < k {
                            let gw = choose|g2: int|
                                0 <= g2 < old_groups.len() && old_groups[g2].0@ == spec_state_of(
                                    counties@[j].id@,
                                );
                            assert(groups@[gw].0@ == spec_state_of(counties@[j].id@));
                        } else {
                            assert(groups@[groups@.len() - 1].0@ == spec_state_of(
                                counties@[j].id@,
                            ));
                        }
                    }
                    assert(sids_all_present(counties@, groups@, k as int + 1));
                }
            },
        }
        k = k + 1;
    }
    Ok(groups)
}

/// A parent key none of the first m polygons carries gathers no indices.
proof fn lemma_group_idx_absent(polys: Seq<Polygon>, sid: Seq<char>, m: int)
    requires
        forall|j: int| 0 <= j < m ==> !hit_sid(polys, sid, j),
    ensures
        group_idx_upto(polys, sid, m) == Seq::<usize>::empty(),
    decreases m,
{
    if m > 0 {
        lemma_group_idx_absent(polys, sid, m - 1);
    }
}

} // verus!
