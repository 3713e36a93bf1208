//! Group builder: buckets resolved regions by (algorithm name, core name) so
//! that each distinct pair is handled by exactly one programming session.
//!
//! The grouping table is an ordered structure: groups appear in first-seen
//! key order, and within a group the regions keep the resolver's order. The
//! abstract contract only requires each pair to be processed exactly once;
//! the fixed order makes processing reproducible.

use vstd::prelude::*;
use vstd::multiset::Multiset;
use crate::region::{NvmRegion, NvmRegionShape};
use crate::resolve::{ResolvedRegion, ResolvedRegionShape};

verus! {

/// Mathematical image of a [`GroupKey`].
pub struct GroupKeyShape {
    pub algo_name: Seq<char>,
    pub core_name: Seq<char>,
}

/// The deduplication unit: two regions sharing a key are serviced by one
/// programming session.
pub struct GroupKey {
    pub algo_name: String,
    pub core_name: String,
}

impl View for GroupKey {
    type V = GroupKeyShape;

    open spec fn view(&self) -> GroupKeyShape {
        GroupKeyShape { algo_name: self.algo_name@, core_name: self.core_name@ }
    }
}

impl DeepView for GroupKey {
    type V = GroupKeyShape;

    open spec fn deep_view(&self) -> GroupKeyShape {
        self.view()
    }
}

/// The key under which a resolved region is grouped.
pub open spec fn key_of(r: ResolvedRegionShape) -> GroupKeyShape {
    GroupKeyShape { algo_name: r.algo_name, core_name: r.core_name }
}

/// Whether `kv` holds the key `k`.
pub open spec fn has_key(kv: Seq<GroupKeyShape>, k: GroupKeyShape) -> bool {
    exists|g: int| 0 <= g < kv.len() && kv[g] == k
}

/// Whether some region of `rv` falls under the key `k`.
pub open spec fn key_is_used(rv: Seq<ResolvedRegionShape>, k: GroupKeyShape) -> bool {
    exists|i: int| 0 <= i < rv.len() && key_of(#[trigger] rv[i]) == k
}

/// Whether `rv[i]` is the first region to carry key `k`.
pub open spec fn first_use_at(rv: Seq<ResolvedRegionShape>, k: GroupKeyShape, i: int) -> bool {
    &&& 0 <= i < rv.len()
    &&& key_of(rv[i]) == k
    &&& forall|j: int| 0 <= j < i ==> key_of(#[trigger] rv[j]) != k
}

/// The position where key `k` is first used; meaningful only when
/// `key_is_used` holds.
pub open spec fn first_use(rv: Seq<ResolvedRegionShape>, k: GroupKeyShape) -> int {
    choose|i: int| first_use_at(rv, k, i)
}

/// A key that is used at all is first used somewhere.
proof fn lemma_some_first_use(rv: Seq<ResolvedRegionShape>, k: GroupKeyShape, i: int)
    requires
        0 <= i < rv.len(),
        key_of(rv[i]) == k,
    ensures
        exists|w: int| first_use_at(rv, k, w),
    decreases i,
{
    if forall|j: int| 0 <= j < i ==> key_of(#[trigger] rv[j]) != k {
        assert(first_use_at(rv, k, i));
    } else {
        let j = choose|j: int| 0 <= j < i && key_of(#[trigger] rv[j]) == k;
        lemma_some_first_use(rv, k, j);
    }
}

/// At most one position is the first use, so `first_use` names it exactly.
pub proof fn lemma_first_use_unique(rv: Seq<ResolvedRegionShape>, k: GroupKeyShape, i: int)
    requires
        first_use_at(rv, k, i),
    ensures
        first_use(rv, k) == i,
{
    lemma_some_first_use(rv, k, i);
    let w = first_use(rv, k);
    assert(first_use_at(rv, k, w));
}

/// The regions of `rv` that fall under key `k`, in order.
pub open spec fn regions_with_key(rv: Seq<ResolvedRegionShape>, k: GroupKeyShape) -> Seq<
    NvmRegionShape,
> {
    rv.filter(|x: ResolvedRegionShape| key_of(x) == k).map_values(
        |x: ResolvedRegionShape| x.region,
    )
}

/// Mathematical image of a [`RegionGroup`].
pub struct RegionGroupShape {
    pub algo_name: Seq<char>,
    pub core_name: Seq<char>,
    pub regions: Seq<NvmRegionShape>,
}

impl RegionGroupShape {
    /// The key all regions of the group share.
    pub open spec fn key(self) -> GroupKeyShape {
        GroupKeyShape { algo_name: self.algo_name, core_name: self.core_name }
    }
}

/// Whether the table `gv` holds a group for the key `k`.
pub open spec fn has_group(gv: Seq<RegionGroupShape>, k: GroupKeyShape) -> bool {
    exists|g: int| 0 <= g < gv.len() && (#[trigger] gv[g]).key() == k
}

/// One bucket of the grouping table: the regions serviced by one (algorithm,
/// core) pair, in the order the resolver produced them.
pub struct RegionGroup {
    pub algo_name: String,
    pub core_name: String,
    pub regions: Vec<NvmRegion>,
}

impl View for RegionGroup {
    type V = RegionGroupShape;

    open spec fn view(&self) -> RegionGroupShape {
        RegionGroupShape {
            algo_name: self.algo_name@,
            core_name: self.core_name@,
            regions: self.regions.deep_view(),
        }
    }
}

impl DeepView for RegionGroup {
    type V = RegionGroupShape;

    open spec fn deep_view(&self) -> RegionGroupShape {
        self.view()
    }
}

/// The grouping a correct table must show for input `rv`: pairwise distinct
/// keys, each group holding exactly the input regions that fall under its
/// key (in input order), a group for every input region's key, no group
/// whose key no input region carries, and groups standing in first-seen key
/// order.
pub open spec fn groups_regions(gv: Seq<RegionGroupShape>, rv: Seq<ResolvedRegionShape>) -> bool {
    &&& forall|a: int, b: int|
        0 <= a < b < gv.len() ==> (#[trigger] gv[a]).key() != (#[trigger] gv[b]).key()
    &&& forall|g: int|
        0 <= g < gv.len() ==> (#[trigger] gv[g]).regions == regions_with_key(rv, gv[g].key())
    &&& forall|i: int| 0 <= i < rv.len() ==> has_group(gv, key_of(#[trigger] rv[i]))
    &&& forall|g: int| 0 <= g < gv.len() ==> key_is_used(rv, (#[trigger] gv[g]).key())
    &&& forall|a: int, b: int|
        0 <= a < b < gv.len() ==> first_use(rv, (#[trigger] gv[a]).key()) < first_use(
            rv,
            (#[trigger] gv[b]).key(),
        )
}

/// The regions of `gv`'s groups, all thrown together, as a multiset.
pub open spec fn grouped_region_multiset(gv: Seq<RegionGroupShape>) -> Multiset<NvmRegionShape>
    decreases gv.len(),
{
    if gv.len() == 0 {
        Multiset::empty()
    } else {
        grouped_region_multiset(gv.drop_last()).add(gv.last().regions.to_multiset())
    }
}

/// The regions falling under the keys of `ks`, all thrown together.
spec fn keyed_region_multiset(ks: Seq<GroupKeyShape>, rv: Seq<ResolvedRegionShape>) -> Multiset<
    NvmRegionShape,
>
    decreases ks.len(),
{
    if ks.len() == 0 {
        Multiset::empty()
    } else {
        keyed_region_multiset(ks.drop_last(), rv).add(
            regions_with_key(rv, ks.last()).to_multiset(),
        )
    }
}

/// Appending a region whose key is not under consideration changes nothing.
proof fn lemma_keyed_skip(
    ks: Seq<GroupKeyShape>,
    rv: Seq<ResolvedRegionShape>,
    x: ResolvedRegionShape,
)
    requires
        forall|g: int| 0 <= g < ks.len() ==> #[trigger] ks[g] != key_of(x),
    ensures
        keyed_region_multiset(ks, rv.push(x)) == keyed_region_multiset(ks, rv),
    decreases ks.len(),
{
    reveal(Seq::filter);
    if ks.len() > 0 {
        lemma_keyed_skip(ks.drop_last(), rv, x);
        assert(rv.push(x).drop_last() =~= rv);
        assert(regions_with_key(rv.push(x), ks.last()) == regions_with_key(rv, ks.last()));
    }
}

/// Appending a region whose key is one of the distinct keys `ks` adds
/// exactly that region to the keyed multiset.
proof fn lemma_keyed_insert(
    ks: Seq<GroupKeyShape>,
    rv: Seq<ResolvedRegionShape>,
    x: ResolvedRegionShape,
)
    requires
        forall|a: int, b: int| 0 <= a < b < ks.len() ==> ks[a] != ks[b],
        has_key(ks, key_of(x)),
    ensures
        keyed_region_multiset(ks, rv.push(x)) == keyed_region_multiset(ks, rv).insert(x.region),
    decreases ks.len(),
{
    broadcast use vstd::multiset::group_multiset_axioms;
    broadcast use vstd::seq_lib::group_to_multiset_ensures;

    reveal(Seq::filter);
    let g = choose|g: int| 0 <= g < ks.len() && ks[g] == key_of(x);
    assert(ks.len() > 0);
    let rest = ks.drop_last();
    assert(rv.push(x).drop_last() =~= rv);
    if ks.last() == key_of(x) {
        assert forall|q: int| 0 <= q < rest.len() implies #[trigger] rest[q] != key_of(x) by {
            assert(rest[q] == ks[q]);
            assert(ks[q] != ks[ks.len() - 1]);
        }
        lemma_keyed_skip(rest, rv, x);
        let pred = |y: ResolvedRegionShape| key_of(y) == ks.last();
        assert(rv.push(x).filter(pred) == rv.filter(pred).push(x));
        assert(regions_with_key(rv.push(x), ks.last()) =~= regions_with_key(
            rv,
            ks.last(),
        ).push(x.region));
        assert(regions_with_key(rv.push(x), ks.last()).to_multiset() =~= regions_with_key(
            rv,
            ks.last(),
        ).to_multiset().insert(x.region));
        assert(keyed_region_multiset(ks, rv.push(x)) =~= keyed_region_multiset(ks, rv).insert(
            x.region,
        ));
    } else {
        assert(g < ks.len() - 1);
        assert(rest[g] == ks[g]);
        assert(has_key(rest, key_of(x)));
        lemma_keyed_insert(rest, rv, x);
        let pred = |y: ResolvedRegionShape| key_of(y) == ks.last();
        assert(!pred(x));
        assert(rv.push(x).filter(pred) == rv.filter(pred));
        assert(regions_with_key(rv.push(x), ks.last()) == regions_with_key(rv, ks.last()));
        assert(keyed_region_multiset(ks, rv.push(x)) =~= keyed_region_multiset(ks, rv).insert(
            x.region,
        ));
    }
}

/// Over an empty input, every key's bucket is empty.
proof fn lemma_keyed_empty(ks: Seq<GroupKeyShape>)
    ensures
        keyed_region_multiset(ks, Seq::empty()) == Multiset::<NvmRegionShape>::empty(),
    decreases ks.len(),
{
    broadcast use vstd::multiset::group_multiset_axioms;
    broadcast use vstd::seq_lib::group_to_multiset_ensures;

    reveal(Seq::filter);
    if ks.len() > 0 {
        lemma_keyed_empty(ks.drop_last());
        let e = Seq::<ResolvedRegionShape>::empty();
        assert(regions_with_key(e, ks.last()) =~= Seq::<NvmRegionShape>::empty());
        assert(Seq::<NvmRegionShape>::empty().to_multiset().len() == 0);
        assert(keyed_region_multiset(ks, e) =~= Multiset::<NvmRegionShape>::empty());
    }
}

/// Distinct keys that cover every input key spread the whole input, nothing
/// lost and nothing duplicated, over their buckets.
proof fn lemma_keyed_total(ks: Seq<GroupKeyShape>, rv: Seq<ResolvedRegionShape>)
    requires
        forall|a: int, b: int| 0 <= a < b < ks.len() ==> ks[a] != ks[b],
        forall|i: int| 0 <= i < rv.len() ==> has_key(ks, key_of(#[trigger] rv[i])),
    ensures
        keyed_region_multiset(ks, rv) == rv.map_values(
            |x: ResolvedRegionShape| x.region,
        ).to_multiset(),
    decreases rv.len(),
{
    broadcast use vstd::multiset::group_multiset_axioms;
    broadcast use vstd::seq_lib::group_to_multiset_ensures;

    let f = |x: ResolvedRegionShape| x.region;
    if rv.len() == 0 {
        lemma_keyed_empty(ks);
        assert(rv =~= Seq::<ResolvedRegionShape>::empty());
        assert(rv.map_values(f).len() == 0);
        assert(rv.map_values(f).to_multiset().len() == 0);
        assert(keyed_region_multiset(ks, rv) =~= rv.map_values(f).to_multiset());
    } else {
        let rest = rv.drop_last();
        let x = rv.last();
        lemma_keyed_total(ks, rest);
        assert(has_key(ks, key_of(x)));
        lemma_keyed_insert(ks, rest, x);
        assert(rest.push(x) =~= rv);
        assert(rest.map_values(f).push(f(x)) =~= rv.map_values(f));
        assert(rest.map_values(f).push(x.region).to_multiset() =~= rest.map_values(
            f,
        ).to_multiset().insert(x.region));
        assert(keyed_region_multiset(ks, rv) =~= rv.map_values(f).to_multiset());
    }
}

/// The groups' buckets taken together are the keyed multiset of their keys.
proof fn lemma_grouped_eq_keyed(gv: Seq<RegionGroupShape>, rv: Seq<ResolvedRegionShape>)
    requires
        forall|g: int|
            0 <= g < gv.len() ==> (#[trigger] gv[g]).regions == regions_with_key(rv, gv[g].key()),
    ensures
        grouped_region_multiset(gv) == keyed_region_multiset(
            gv.map_values(|p: RegionGroupShape| p.key()),
            rv,
        ),
    decreases gv.len(),
{
    let k = |p: RegionGroupShape| p.key();
    if gv.len() == 0 {
        assert(gv.map_values(k).len() == 0);
    } else {
        lemma_grouped_eq_keyed(gv.drop_last(), rv);
        assert(gv.drop_last().map_values(k) =~= gv.map_values(k).drop_last());
        assert(gv.map_values(k).last() == gv.last().key());
        assert(gv.last().regions == regions_with_key(rv, gv.last().key()));
    }
}

/// Grouping is a partition: spread over its groups, the table holds every
/// region the resolver produced exactly once — none lost, none duplicated.
pub proof fn lemma_grouping_partition(gv: Seq<RegionGroupShape>, rv: Seq<ResolvedRegionShape>)
    requires
        groups_regions(gv, rv),
    ensures
        grouped_region_multiset(gv) == rv.map_values(
            |x: ResolvedRegionShape| x.region,
        ).to_multiset(),
{
    let k = |p: RegionGroupShape| p.key();
    let ks = gv.map_values(k);
    lemma_grouped_eq_keyed(gv, rv);
    assert forall|a: int, b: int| 0 <= a < b < ks.len() implies ks[a] != ks[b] by {
        assert(ks[a] == gv[a].key());
        assert(ks[b] == gv[b].key());
    }
    assert forall|i: int| 0 <= i < rv.len() implies has_key(ks, key_of(#[trigger] rv[i])) by {
        assert(has_group(gv, key_of(rv[i])));
        let g = choose|g: int| 0 <= g < gv.len() && (#[trigger] gv[g]).key() == key_of(rv[i]);
        assert(ks[g] == key_of(rv[i]));
    }
    lemma_keyed_total(ks, rv);
}

/// Whether `keys` already holds the pair (`algo_name`, `core_name`).
fn contains_key(keys: &Vec<GroupKey>, algo_name: &String, core_name: &String) -> (b: bool)
    ensures
        b == has_key(
            keys.deep_view(),
            GroupKeyShape { algo_name: algo_name@, core_name: core_name@ },
        ),
{
    let ghost kv = keys.deep_view();
    let ghost wanted = GroupKeyShape { algo_name: algo_name@, core_name: core_name@ };
    let mut g: usize = 0;
    while g < keys.len()
        invariant
            g <= keys@.len(),
            kv == keys.deep_view(),
            kv.len() == keys@.len(),
            wanted == (GroupKeyShape { algo_name: algo_name@, core_name: core_name@ }),
            forall|k: int| 0 <= k < g ==> #[trigger] kv[k] != wanted,
        decreases keys.len() - g,
    {
        proof {
            assert(kv[g as int] == keys@[g as int]@);
        }
        if keys[g].algo_name == *algo_name && keys[g].core_name == *core_name {
            proof {
                assert(kv[g as int] == wanted);
            }
            return true;
        }
        proof {
            assert(kv[g as int] != wanted);
        }
        g = g + 1;
    }
    false
}

/// First pass of the group builder: the distinct keys of `resolved`, in
/// first-seen order.
fn collect_keys(resolved: &Vec<ResolvedRegion>) -> (keys: Vec<GroupKey>)
    ensures
        forall|a: int, b: int|
            0 <= a < b < keys.deep_view().len() ==> #[trigger] keys.deep_view()[a]
                != #[trigger] keys.deep_view()[b],
        forall|i: int|
            0 <= i < resolved.deep_view().len() ==> has_key(
                keys.deep_view(),
                key_of(#[trigger] resolved.deep_view()[i]),
            ),
        forall|g: int|
            0 <= g < keys.deep_view().len() ==> key_is_used(
                resolved.deep_view(),
                #[trigger] keys.deep_view()[g],
            ),
        forall|a: int, b: int|
            0 <= a < b < keys.deep_view().len() ==> first_use(
                resolved.deep_view(),
                #[trigger] keys.deep_view()[a],
            ) < first_use(resolved.deep_view(), #[trigger] keys.deep_view()[b]),
{
    let ghost rv = resolved.deep_view();
    let mut keys: Vec<GroupKey> = Vec::new();
    let mut i: usize = 0;
    while i < resolved.len()
        invariant
            i <= resolved@.len(),
            rv == resolved.deep_view(),
            rv.len() == resolved@.len(),
            forall|a: int, b: int|
                0 <= a < b < keys.deep_view().len() ==> #[trigger] keys.deep_view()[a]
                    != #[trigger] keys.deep_view()[b],
            forall|k: int| 0 <= k < i ==> has_key(keys.deep_view(), key_of(#[trigger] rv[k])),
            forall|g: int|
                0 <= g < keys.deep_view().len() ==> key_is_used(
                    rv,
                    #[trigger] keys.deep_view()[g],
                ),
            forall|g: int|
                0 <= g < keys.deep_view().len() ==> first_use_at(
                    rv,
                    #[trigger] keys.deep_view()[g],
                    first_use(rv, keys.deep_view()[g]),
                ) && first_use(rv, keys.deep_view()[g]) < i,
            forall|a: int, b: int|
                0 <= a < b < keys.deep_view().len() ==> first_use(
                    rv,
                    #[trigger] keys.deep_view()[a],
                ) < first_use(rv, #[trigger] keys.deep_view()[b]),
        decreases resolved.len() - i,
    {
        let r = &resolved[i];
        proof {
            assert(rv[i as int] == resolved@[i as int]@);
        }
        let ghost prev = keys.deep_view();
        if !contains_key(&keys, &r.algo_name, &r.core_name) {
            let entry = GroupKey { algo_name: r.algo_name.clone(), core_name: r.core_name.clone() };
            proof {
                assert(entry@ == key_of(rv[i as int]));
            }
            keys.push(entry);
            proof {
                let kv = keys.deep_view();
                assert(kv =~= prev.push(key_of(rv[i as int])));
                assert forall|j: int| 0 <= j < i implies key_of(#[trigger] rv[j]) != key_of(
                    rv[i as int],
                ) by {
                    assert(has_key(prev, key_of(rv[j])));
                }
                assert(first_use_at(rv, key_of(rv[i as int]), i as int));
                lemma_first_use_unique(rv, key_of(rv[i as int]), i as int);
                assert forall|k: int| 0 <= k < i + 1 implies has_key(
                    kv,
                    key_of(#[trigger] rv[k]),
                ) by {
                    if k < i {
                        let g = choose|g: int| 0 <= g < prev.len() && prev[g] == key_of(rv[k]);
                        assert(kv[g] == key_of(rv[k]));
                    } else {
                        assert(kv[kv.len() - 1] == key_of(rv[i as int]));
                    }
                }
                assert forall|g: int| 0 <= g < kv.len() implies key_is_used(
                    rv,
                    #[trigger] kv[g],
                ) by {
                    if g < prev.len() {
                        assert(kv[g] == prev[g]);
                    } else {
                        assert(key_of(rv[i as int]) == kv[g]);
                    }
                }
            }
        } else {
            proof {
                let g = choose|g: int| 0 <= g < prev.len() && prev[g] == key_of(rv[i as int]);
                assert(has_key(prev, key_of(rv[i as int])));
            }
        }
        i = i + 1;
    }
    keys
}

/// Second pass of the group builder: the regions of `resolved` that fall
/// under `key`, in input order.
fn regions_for_key(resolved: &Vec<ResolvedRegion>, key: &GroupKey) -> (out: Vec<NvmRegion>)
    ensures
        out.deep_view() == regions_with_key(resolved.deep_view(), key@),
{
    let ghost rv = resolved.deep_view();
    let ghost k = key@;
    let ghost p = |x: ResolvedRegionShape| key_of(x) == k;
    let mut out: Vec<NvmRegion> = Vec::new();
    proof {
        reveal(Seq::filter);
        assert(out.deep_view() =~= rv.subrange(0, 0).filter(p).map_values(
            |x: ResolvedRegionShape| x.region,
        ));
    }
    let mut i: usize = 0;
    while i < resolved.len()
        invariant
            i <= resolved@.len(),
            rv == resolved.deep_view(),
            k == key@,
            p == (|x: ResolvedRegionShape| key_of(x) == k),
            rv.len() == resolved@.len(),
            out.deep_view() == rv.subrange(0, i as int).filter(p).map_values(
                |x: ResolvedRegionShape| x.region,
            ),
        decreases resolved.len() - i,
    {
        let r = &resolved[i];
        proof {
            reveal(Seq::filter);
            assert(rv[i as int] == resolved@[i as int]@);
            let sub = rv.subrange(0, i as int);
            let subn = rv.subrange(0, i + 1 as int);
            assert(subn.drop_last() =~= sub);
            assert(subn.last() == rv[i as int]);
            assert(subn.filter(p) == if p(rv[i as int]) {
                sub.filter(p).push(rv[i as int])
            } else {
                sub.filter(p)
            });
        }
        let ghost prev = out.deep_view();
        if r.algo_name == key.algo_name && r.core_name == key.core_name {
            out.push(r.region.clone());
            proof {
                assert(p(rv[i as int]));
                assert(out.deep_view() =~= prev.push(rv[i as int].region));
                assert(out.deep_view() =~= rv.subrange(0, i + 1 as int).filter(p).map_values(
                    |x: ResolvedRegionShape| x.region,
                ));
            }
        } else {
            proof {
                assert(!p(rv[i as int]));
                assert(out.deep_view() =~= rv.subrange(0, i + 1 as int).filter(p).map_values(
                    |x: ResolvedRegionShape| x.region,
                ));
            }
        }
        i = i + 1;
    }
    proof {
        assert(rv.subrange(0, rv.len() as int) =~= rv);
    }
    out
}

/// Group builder: buckets the resolver's output by (algorithm name, core
/// name). Every input region lands in exactly one group — the one whose key
/// it carries — and keeps its position relative to the other regions of that
/// group; groups appear in first-seen key order.
pub fn build_groups(resolved: &Vec<ResolvedRegion>) -> (groups: Vec<RegionGroup>)
    ensures
        groups_regions(groups.deep_view(), resolved.deep_view()),
{
    let ghost rv = resolved.deep_view();
    let keys = collect_keys(resolved);
    let ghost kv = keys.deep_view();
    let mut groups: Vec<RegionGroup> = Vec::new();
    let mut g: usize = 0;
    while g < keys.len()
        invariant
            g <= keys@.len(),
            rv == resolved.deep_view(),
            kv == keys.deep_view(),
            kv.len() == keys@.len(),
            groups.deep_view().len() == g,
            forall|a: int, b: int| 0 <= a < b < kv.len() ==> #[trigger] kv[a] != #[trigger] kv[b],
            forall|q: int| 0 <= q < g ==> (#[trigger] groups.deep_view()[q]).key() == kv[q],
            forall|q: int|
                0 <= q < g ==> (#[trigger] groups.deep_view()[q]).regions == regions_with_key(
                    rv,
                    kv[q],
                ),
        decreases keys.len() - g,
    {
        proof {
            assert(kv[g as int] == keys@[g as int]@);
        }
        let key = &keys[g];
        let regions = regions_for_key(resolved, key);
        let entry = RegionGroup {
            algo_name: key.algo_name.clone(),
            core_name: key.core_name.clone(),
            regions,
        };
        proof {
            assert(entry@.key() == kv[g as int]);
            assert(entry@.regions == regions_with_key(rv, kv[g as int]));
        }
        let ghost prev = groups.deep_view();
        groups.push(entry);
        proof {
            assert(groups.deep_view() =~= prev.push(entry@));
        }
        g = g + 1;
    }
    proof {
        let gv = groups.deep_view();
        assert forall|i: int| 0 <= i < rv.len() implies has_group(gv, key_of(#[trigger] rv[i])) by {
            assert(has_key(kv, key_of(rv[i])));
            let q = choose|q: int| 0 <= q < kv.len() && kv[q] == key_of(rv[i]);
            assert(gv[q].key() == key_of(rv[i]));
        }
        assert forall|q: int| 0 <= q < gv.len() implies key_is_used(
            rv,
            (#[trigger] gv[q]).key(),
        ) by {
            assert(gv[q].key() == kv[q]);
            assert(key_is_used(rv, kv[q]));
        }
        assert forall|a: int, b: int| 0 <= a < b < gv.len() implies first_use(
            rv,
            (#[trigger] gv[a]).key(),
        ) < first_use(rv, (#[trigger] gv[b]).key()) by {
            assert(gv[a].key() == kv[a]);
            assert(gv[b].key() == kv[b]);
        }
    }
    groups
}

} // verus!
