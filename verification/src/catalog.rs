//! The asset catalog: classification and deduplication of entitlement
//! records.
//!
//! Entitlements are partitioned by namespace into engine and non-engine
//! assets.  Each partition is a two-level index: catalog item id to app
//! name to the latest entitlement seen for that pair.  The index is held
//! in insertion-ordered vectors with uniqueness invariants, and its
//! meaning is given by a finite map from `(catalog_item_id, app_name)`
//! keys to entitlements in which later insertions overwrite earlier ones.

use vstd::prelude::*;
use crate::lexical::str_eq;

verus! {

/// A record of one asset the user owns access to.
pub struct Entitlement {
    /// Namespace of the asset; the engine sentinel marks engine assets.
    pub namespace: String,
    /// Identifier of the logical product.
    pub catalog_item_id: String,
    /// The app variant of the product.
    pub app_name: String,
}

/// The mathematical value of an [`Entitlement`]: its three identifying
/// character sequences.
pub struct EntitlementView {
    pub namespace: Seq<char>,
    pub catalog_item_id: Seq<char>,
    pub app_name: Seq<char>,
}

impl View for Entitlement {
    type V = EntitlementView;

    open spec fn view(&self) -> EntitlementView {
        EntitlementView {
            namespace: self.namespace@,
            catalog_item_id: self.catalog_item_id@,
            app_name: self.app_name@,
        }
    }
}

impl Entitlement {
    /// Copies the record field by field.
    pub fn duplicate(&self) -> (r: Entitlement)
        ensures
            r@ == self@,
    {
        Entitlement {
            namespace: self.namespace.clone(),
            catalog_item_id: self.catalog_item_id.clone(),
            app_name: self.app_name.clone(),
        }
    }
}

/// The namespace that marks an asset as an engine asset.
pub open spec fn engine_namespace() -> Seq<char> {
    "ue"@
}

/// An entitlement belongs to the engine partition exactly when its
/// namespace is the engine sentinel.
pub open spec fn is_engine(e: EntitlementView) -> bool {
    e.namespace == engine_namespace()
}

/// The key under which an entitlement is indexed: the entitlement is
/// uniquely identified by this pair.
pub open spec fn entry_key(e: EntitlementView) -> (Seq<char>, Seq<char>) {
    (e.catalog_item_id, e.app_name)
}

/// The index that a sequence of entitlements denotes: entitlements are
/// inserted in order under their key, and a later entitlement overwrites
/// an earlier one with the same key.
pub open spec fn catalog_map(s: Seq<EntitlementView>) -> Map<
    (Seq<char>, Seq<char>),
    EntitlementView,
>
    decreases s.len(),
{
    if s.len() == 0 {
        Map::empty()
    } else {
        catalog_map(s.drop_last()).insert(entry_key(s.last()), s.last())
    }
}

/// The views of a sequence of entitlement records.
pub open spec fn entitlement_views(s: Seq<Entitlement>) -> Seq<EntitlementView> {
    s.map_values(|e: Entitlement| e@)
}

/// The engine-partition part of an input sequence.
pub open spec fn engine_part(s: Seq<EntitlementView>) -> Seq<EntitlementView> {
    s.filter(|e: EntitlementView| is_engine(e))
}

/// The non-engine part of an input sequence.
pub open spec fn other_part(s: Seq<EntitlementView>) -> Seq<EntitlementView> {
    s.filter(|e: EntitlementView| !is_engine(e))
}

/// All entitlements of one catalog item, keyed by app name.
pub struct AssetGroup {
    /// The shared catalog item id of every entry of the group.
    pub catalog_item_id: String,
    /// The entries of the group, one per app name, in insertion order.
    pub entries: Vec<Entitlement>,
}

/// The mathematical value of an [`AssetGroup`].
pub struct AssetGroupView {
    pub catalog_item_id: Seq<char>,
    pub entries: Seq<EntitlementView>,
}

impl View for AssetGroup {
    type V = AssetGroupView;

    open spec fn view(&self) -> AssetGroupView {
        AssetGroupView {
            catalog_item_id: self.catalog_item_id@,
            entries: entitlement_views(self.entries@),
        }
    }
}

/// Well-formedness of one group: it is non-empty, every entry carries the
/// group's catalog item id, and app names do not repeat.
pub open spec fn group_wf(g: AssetGroupView) -> bool {
    &&& g.entries.len() > 0
    &&& forall|k: int|
        0 <= k < g.entries.len() ==> (#[trigger] g.entries[k]).catalog_item_id
            == g.catalog_item_id
    &&& forall|k: int, l: int|
        0 <= k < l < g.entries.len() ==> g.entries[k].app_name != g.entries[l].app_name
}

/// The views of a vector of groups.
pub open spec fn group_views(gs: Seq<AssetGroup>) -> Seq<AssetGroupView> {
    gs.map_values(|g: AssetGroup| g@)
}

/// Well-formedness of one partition: every group is well formed and
/// catalog item ids do not repeat across groups.
pub open spec fn partition_wf(gs: Seq<AssetGroupView>) -> bool {
    &&& forall|i: int| 0 <= i < gs.len() ==> group_wf(#[trigger] gs[i])
    &&& forall|i: int, j: int|
        0 <= i < j < gs.len() ==> gs[i].catalog_item_id != gs[j].catalog_item_id
}

/// Every entry of the partition is on the stated side of the namespace
/// split.
pub open spec fn partition_side(gs: Seq<AssetGroupView>, engine: bool) -> bool {
    forall|i: int, k: int|
        0 <= i < gs.len() && 0 <= k < gs[i].entries.len() ==> is_engine(
            #[trigger] gs[i].entries[k],
        ) == engine
}

/// The finite map a partition denotes: the union of its groups' maps.
/// With well-formedness the groups' key sets are disjoint, so the union
/// direction does not matter; it is taken right-preferring to mirror the
/// insertion fold.
pub open spec fn partition_map(gs: Seq<AssetGroupView>) -> Map<
    (Seq<char>, Seq<char>),
    EntitlementView,
>
    decreases gs.len(),
{
    if gs.len() == 0 {
        Map::empty()
    } else {
        partition_map(gs.drop_last()).union_prefer_right(catalog_map(gs.last().entries))
    }
}

/// The number of entries a partition holds.
pub open spec fn partition_entry_count(gs: Seq<AssetGroupView>) -> int
    decreases gs.len(),
{
    if gs.len() == 0 {
        0
    } else {
        partition_entry_count(gs.drop_last()) + gs.last().entries.len()
    }
}

/// The two-partition index of classified entitlements.
pub struct CatalogIndex {
    /// Groups of engine assets, in order of first insertion.
    pub engine: Vec<AssetGroup>,
    /// Groups of all other assets, in order of first insertion.
    pub non_engine: Vec<AssetGroup>,
}

impl CatalogIndex {
    /// The views of the engine partition's groups.
    pub open spec fn engine_view(&self) -> Seq<AssetGroupView> {
        group_views(self.engine@)
    }

    /// The views of the non-engine partition's groups.
    pub open spec fn non_engine_view(&self) -> Seq<AssetGroupView> {
        group_views(self.non_engine@)
    }

    /// Structural invariant: both partitions are well formed and hold
    /// only entitlements of their own side of the namespace split.
    pub open spec fn wf(&self) -> bool {
        &&& partition_wf(self.engine_view())
        &&& partition_wf(self.non_engine_view())
        &&& partition_side(self.engine_view(), true)
        &&& partition_side(self.non_engine_view(), false)
    }

    /// One representative entitlement per non-engine catalog item: the
    /// last entry of each group, in partition order.  The asset-info
    /// lookup is made once per catalog item, on its representative.
    pub fn non_engine_representatives(&self) -> (r: Vec<Entitlement>)
        requires
            self.wf(),
        ensures
            r@.len() == self.non_engine_view().len(),
            forall|i: int|
                0 <= i < r@.len() ==> r@[i]@ == (#[trigger] self.non_engine_view()[i]).entries
                    .last(),
    {
        let mut r: Vec<Entitlement> = Vec::new();
        let n = self.non_engine.len();
        let mut i: usize = 0;
        while i < n
            invariant
                i <= n,
                n == self.non_engine@.len(),
                partition_wf(self.non_engine_view()),
                r@.len() == i,
                forall|j: int|
                    0 <= j < i ==> r@[j]@ == (#[trigger] self.non_engine_view()[j]).entries
                        .last(),
            decreases n - i,
        {
            let g = &self.non_engine[i];
            proof {
                assert(group_wf(self.non_engine_view()[i as int]));
            }
            let last = g.entries.len() - 1;
            r.push(g.entries[last].duplicate());
            i = i + 1;
        }
        r
    }
}

/// Appending an entitlement inserts it into the denoted index; a later
/// record with the same key overwrites an earlier one.
pub proof fn lemma_catalog_map_push(es: Seq<EntitlementView>, e: EntitlementView)
    ensures
        catalog_map(es.push(e)) == catalog_map(es).insert(entry_key(e), e),
{
    assert(es.push(e).drop_last() =~= es);
    assert(es.push(e).last() == e);
}

/// The denoted index holds exactly the keys of the sequence's entries:
/// every record lands in the index under its key, and nothing else does.
pub proof fn lemma_catalog_map_dom(es: Seq<EntitlementView>, key: (Seq<char>, Seq<char>))
    ensures
        catalog_map(es).contains_key(key) <==> exists|i: int|
            0 <= i < es.len() && entry_key(#[trigger] es[i]) == key,
    decreases es.len(),
{
    if es.len() > 0 {
        lemma_catalog_map_dom(es.drop_last(), key);
        if catalog_map(es).contains_key(key) {
            if entry_key(es.last()) == key {
                assert(entry_key(es[es.len() - 1]) == key);
            } else {
                let i = choose|i: int|
                    0 <= i < es.drop_last().len() && entry_key(#[trigger] es.drop_last()[i])
                        == key;
                assert(entry_key(es[i]) == key);
            }
        }
        if exists|i: int| 0 <= i < es.len() && entry_key(#[trigger] es[i]) == key {
            let i = choose|i: int| 0 <= i < es.len() && entry_key(#[trigger] es[i]) == key;
            if i < es.len() - 1 {
                assert(entry_key(es.drop_last()[i]) == key);
            }
        }
    }
}

/// Overwriting the entry that holds a key denotes an insertion under that
/// key, provided keys do not repeat.
proof fn lemma_catalog_map_update(es: Seq<EntitlementView>, q: int, e: EntitlementView)
    requires
        0 <= q < es.len(),
        entry_key(es[q]) == entry_key(e),
        forall|k: int, l: int|
            0 <= k < l < es.len() ==> entry_key(#[trigger] es[k]) != entry_key(
                #[trigger] es[l],
            ),
    ensures
        catalog_map(es.update(q, e)) == catalog_map(es).insert(entry_key(e), e),
    decreases es.len(),
{
    let key = entry_key(e);
    if q == es.len() - 1 {
        assert(es.update(q, e).drop_last() =~= es.drop_last());
        assert(es.update(q, e).last() == e);
        assert(catalog_map(es.drop_last()).insert(key, e) =~= catalog_map(
            es.drop_last(),
        ).insert(entry_key(es[q]), es[q]).insert(key, e));
    } else {
        let head = es.drop_last();
        assert(es.update(q, e).drop_last() =~= head.update(q, e));
        assert(es.update(q, e).last() == es.last());
        assert(forall|k: int, l: int|
            0 <= k < l < head.len() ==> entry_key(#[trigger] head[k]) != entry_key(
                #[trigger] head[l],
            ));
        lemma_catalog_map_update(head, q, e);
        assert(entry_key(es.last()) != key) by {
            assert(entry_key(es[q]) != entry_key(es[es.len() - 1]));
        }
        assert(catalog_map(head).insert(key, e).insert(entry_key(es.last()), es.last())
            =~= catalog_map(head).insert(entry_key(es.last()), es.last()).insert(key, e));
    }
}

/// A key is in a partition's map exactly when some group's entries hold it.
proof fn lemma_partition_map_dom(gs: Seq<AssetGroupView>, key: (Seq<char>, Seq<char>))
    ensures
        partition_map(gs).contains_key(key) <==> exists|i: int|
            0 <= i < gs.len() && catalog_map((#[trigger] gs[i]).entries).contains_key(key),
    decreases gs.len(),
{
    if gs.len() > 0 {
        lemma_partition_map_dom(gs.drop_last(), key);
        if partition_map(gs).contains_key(key) {
            if catalog_map(gs.last().entries).contains_key(key) {
                assert(catalog_map(gs[gs.len() - 1].entries).contains_key(key));
            } else {
                let i = choose|i: int|
                    0 <= i < gs.drop_last().len() && catalog_map(
                        (#[trigger] gs.drop_last()[i]).entries,
                    ).contains_key(key);
                assert(catalog_map(gs[i].entries).contains_key(key));
            }
        }
        if exists|i: int|
            0 <= i < gs.len() && catalog_map((#[trigger] gs[i]).entries).contains_key(key) {
            let i = choose|i: int|
                0 <= i < gs.len() && catalog_map((#[trigger] gs[i]).entries).contains_key(
                    key,
                );
            if i < gs.len() - 1 {
                assert(catalog_map(gs.drop_last()[i].entries).contains_key(key));
            }
        }
    }
}

/// In a well-formed group, every key the group's map holds carries the
/// group's catalog item id.
proof fn lemma_group_keys_own_id(g: AssetGroupView, key: (Seq<char>, Seq<char>))
    requires
        group_wf(g),
        catalog_map(g.entries).contains_key(key),
    ensures
        key.0 == g.catalog_item_id,
{
    lemma_catalog_map_dom(g.entries, key);
}

/// Replacing one group by a group whose map gained one key of its own
/// catalog item id inserts that key into the partition's map.
proof fn lemma_partition_map_update(
    gs: Seq<AssetGroupView>,
    p: int,
    g2: AssetGroupView,
    key: (Seq<char>, Seq<char>),
    v: EntitlementView,
)
    requires
        0 <= p < gs.len(),
        partition_wf(gs),
        g2.catalog_item_id == gs[p].catalog_item_id,
        catalog_map(g2.entries) == catalog_map(gs[p].entries).insert(key, v),
        key.0 == gs[p].catalog_item_id,
    ensures
        partition_map(gs.update(p, g2)) == partition_map(gs).insert(key, v),
    decreases gs.len(),
{
    if p == gs.len() - 1 {
        assert(gs.update(p, g2).drop_last() =~= gs.drop_last());
        assert(gs.update(p, g2).last() == g2);
        assert(partition_map(gs.drop_last()).union_prefer_right(
            catalog_map(gs[p].entries).insert(key, v),
        ) =~= partition_map(gs.drop_last()).union_prefer_right(
            catalog_map(gs[p].entries),
        ).insert(key, v));
    } else {
        let head = gs.drop_last();
        let last = gs.last();
        assert(gs.update(p, g2).drop_last() =~= head.update(p, g2));
        assert(gs.update(p, g2).last() == last);
        assert(partition_wf(head)) by {
            assert(forall|i: int| 0 <= i < head.len() ==> gs[i] == #[trigger] head[i]);
        }
        assert(head[p] == gs[p]);
        lemma_partition_map_update(head, p, g2, key, v);
        assert(!catalog_map(last.entries).contains_key(key)) by {
            if catalog_map(last.entries).contains_key(key) {
                assert(group_wf(gs[gs.len() - 1]));
                lemma_group_keys_own_id(last, key);
                assert(gs[p].catalog_item_id != gs[gs.len() - 1].catalog_item_id);
            }
        }
        assert(partition_map(head).insert(key, v).union_prefer_right(
            catalog_map(last.entries),
        ) =~= partition_map(head).union_prefer_right(catalog_map(last.entries)).insert(
            key,
            v,
        ));
    }
}

/// Appending a fresh one-entry group inserts the entry's key into the
/// partition's map.
proof fn lemma_partition_map_push_group(gs: Seq<AssetGroupView>, g: AssetGroupView)
    requires
        g.entries.len() == 1,
    ensures
        partition_map(gs.push(g)) == partition_map(gs).insert(
            entry_key(g.entries[0]),
            g.entries[0],
        ),
{
    assert(gs.push(g).drop_last() =~= gs);
    assert(gs.push(g).last() == g);
    let e = g.entries[0];
    assert(g.entries.drop_last() =~= Seq::<EntitlementView>::empty());
    assert(g.entries.last() == e);
    assert(catalog_map(Seq::<EntitlementView>::empty()) == Map::<(Seq<char>, Seq<char>),
        EntitlementView,
    >::empty());
    assert(catalog_map(g.entries) == catalog_map(g.entries.drop_last()).insert(
        entry_key(g.entries.last()),
        g.entries.last(),
    ));
    assert(catalog_map(g.entries) == Map::<(Seq<char>, Seq<char>),
        EntitlementView,
    >::empty().insert(entry_key(e), e));
    assert(partition_map(gs).union_prefer_right(
        Map::<(Seq<char>, Seq<char>), EntitlementView>::empty().insert(entry_key(e), e),
    ) =~= partition_map(gs).insert(entry_key(e), e));
}

/// Finds the group that carries a catalog item id, if any.
fn find_group(gs: &Vec<AssetGroup>, id: &str) -> (r: Option<usize>)
    ensures
        match r {
            Some(p) => p < gs@.len() && group_views(gs@)[p as int].catalog_item_id == id@,
            None => forall|i: int|
                0 <= i < gs@.len() ==> group_views(gs@)[i].catalog_item_id != id@,
        },
{
    let mut i: usize = 0;
    while i < gs.len()
        invariant
            i <= gs@.len(),
            forall|j: int| 0 <= j < i ==> group_views(gs@)[j].catalog_item_id != id@,
        decreases gs@.len() - i,
    {
        if str_eq(gs[i].catalog_item_id.as_str(), id) {
            return Some(i);
        }
        i = i + 1;
    }
    None
}

/// Finds the entry that carries an app name, if any.
fn find_entry(es: &Vec<Entitlement>, app_name: &str) -> (r: Option<usize>)
    ensures
        match r {
            Some(q) => q < es@.len() && entitlement_views(es@)[q as int].app_name
                == app_name@,
            None => forall|k: int|
                0 <= k < es@.len() ==> entitlement_views(es@)[k].app_name != app_name@,
        },
{
    let mut k: usize = 0;
    while k < es.len()
        invariant
            k <= es@.len(),
            forall|j: int| 0 <= j < k ==> entitlement_views(es@)[j].app_name != app_name@,
        decreases es@.len() - k,
    {
        if str_eq(es[k].app_name.as_str(), app_name) {
            return Some(k);
        }
        k = k + 1;
    }
    None
}

/// Inserts one entitlement into a partition: into its catalog item's
/// group if one exists, overwriting the entry with the same app name if
/// there is one, else as a fresh group at the end.
fn partition_insert(gs: &mut Vec<AssetGroup>, e: Entitlement)
    requires
        partition_wf(group_views(old(gs)@)),
    ensures
        partition_wf(group_views(final(gs)@)),
        partition_map(group_views(final(gs)@)) == partition_map(group_views(old(gs)@)).insert(
            entry_key(e@),
            e@,
        ),
        forall|b: bool|
            partition_side(group_views(old(gs)@), b) && is_engine(e@) == b
                ==> partition_side(group_views(final(gs)@), b),
{
    let ghost gs0 = group_views(gs@);
    let ghost ev = e@;
    let ghost key = entry_key(ev);
    match find_group(gs, e.catalog_item_id.as_str()) {
        None => {
            let id = e.catalog_item_id.clone();
            let mut entries: Vec<Entitlement> = Vec::new();
            entries.push(e);
            let g = AssetGroup { catalog_item_id: id, entries };
            proof {
                assert(g@.entries =~= seq![ev]);
            }
            gs.push(g);
            proof {
                assert(group_views(gs@) =~= gs0.push(g@));
                lemma_partition_map_push_group(gs0, g@);
                assert(forall|i: int|
                    0 <= i < gs0.len() ==> #[trigger] gs0.push(g@)[i] == gs0[i]);
                assert(group_wf(g@));
                assert(partition_wf(group_views(gs@)));
                assert forall|b: bool|
                    partition_side(gs0, b) && is_engine(ev) == b implies partition_side(
                    group_views(gs@),
                    b,
                ) by {
                    let ngs = group_views(gs@);
                    assert forall|i: int, k: int|
                        0 <= i < ngs.len() && 0 <= k < ngs[i].entries.len() implies is_engine(
                        #[trigger] ngs[i].entries[k],
                    ) == b by {
                        if i < gs0.len() {
                            assert(ngs[i] == gs0[i]);
                        } else {
                            assert(ngs[i].entries[k] == ev);
                        }
                    }
                }
            }
        },
        Some(p) => {
            let ghost pg = p as int;
            let mut g = gs.remove(p);
            let ghost gv0 = g@;
            proof {
                assert(gv0 == gs0[pg]);
                assert(group_wf(gv0));
                assert(gv0.catalog_item_id == ev.catalog_item_id);
            }
            match find_entry(&g.entries, e.app_name.as_str()) {
                None => {
                    g.entries.push(e);
                    proof {
                        assert(g@.entries =~= gv0.entries.push(ev));
                        lemma_catalog_map_push(gv0.entries, ev);
                        assert(forall|k: int|
                            0 <= k < gv0.entries.len() ==> #[trigger] gv0.entries.push(
                                ev,
                            )[k] == gv0.entries[k]);
                        assert(group_wf(g@));
                    }
                },
                Some(q) => {
                    let ghost qi = q as int;
                    let ghost es0 = g.entries@;
                    g.entries.remove(q);
                    g.entries.insert(q, e);
                    proof {
                        es0.remove_ensures(qi);
                        es0.remove(qi).insert_ensures(qi, e);
                        assert(g.entries@ =~= es0.update(qi, e));
                        assert(g@.entries =~= gv0.entries.update(qi, ev));
                        assert(entry_key(gv0.entries[qi]) == key);
                        assert(forall|k: int, l: int|
                            0 <= k < l < gv0.entries.len() ==> entry_key(
                                #[trigger] gv0.entries[k],
                            ) != entry_key(#[trigger] gv0.entries[l]));
                        lemma_catalog_map_update(gv0.entries, qi, ev);
                        assert(group_wf(g@));
                    }
                },
            }
            let ghost g2 = g@;
            let ghost mid = gs@;
            gs.insert(p, g);
            proof {
                assert(gs@ == mid.insert(pg, g));
                assert(gs@ =~= old(gs)@.update(pg, g)) by {
                    old(gs)@.remove_ensures(pg);
                    mid.insert_ensures(pg, g);
                    assert(mid == old(gs)@.remove(pg));
                }
                assert(group_views(gs@) =~= gs0.update(pg, g2));
                lemma_partition_map_update(gs0, pg, g2, key, ev);
                assert(forall|i: int|
                    0 <= i < gs0.len() && i != pg ==> #[trigger] gs0.update(pg, g2)[i]
                        == gs0[i]);
                assert(partition_wf(group_views(gs@)));
                assert forall|b: bool|
                    partition_side(gs0, b) && is_engine(ev) == b implies partition_side(
                    group_views(gs@),
                    b,
                ) by {
                    let ngs = group_views(gs@);
                    assert forall|i: int, k: int|
                        0 <= i < ngs.len() && 0 <= k < ngs[i].entries.len() implies is_engine(
                        #[trigger] ngs[i].entries[k],
                    ) == b by {
                        if i != pg {
                            assert(ngs[i] == gs0[i]);
                            assert(is_engine(gs0[i].entries[k]) == b);
                        } else {
                            if 0 <= k < gv0.entries.len() && ngs[i].entries[k]
                                == gv0.entries[k] {
                                assert(is_engine(gs0[pg].entries[k]) == b);
                            } else {
                                assert(ngs[i].entries[k] == ev);
                            }
                        }
                    }
                }
            }
        },
    }
}

/// Filtering an empty input leaves both parts empty.
proof fn lemma_parts_empty()
    ensures
        engine_part(Seq::<EntitlementView>::empty()) == Seq::<EntitlementView>::empty(),
        other_part(Seq::<EntitlementView>::empty()) == Seq::<EntitlementView>::empty(),
{
    reveal(Seq::filter);
}

/// Appending a record extends exactly the part of its own namespace side.
pub proof fn lemma_parts_push(s: Seq<EntitlementView>, e: EntitlementView)
    ensures
        engine_part(s.push(e)) == (if is_engine(e) {
            engine_part(s).push(e)
        } else {
            engine_part(s)
        }),
        other_part(s.push(e)) == (if !is_engine(e) {
            other_part(s).push(e)
        } else {
            other_part(s)
        }),
{
    reveal(Seq::filter);
    assert(s.push(e).drop_last() =~= s);
    assert(s.push(e).last() == e);
}

/// Splitting an input loses nothing: the two parts' lengths sum to the
/// input's length.
pub proof fn lemma_parts_complete(s: Seq<EntitlementView>)
    ensures
        engine_part(s).len() + other_part(s).len() == s.len(),
    decreases s.len(),
{
    reveal(Seq::filter);
    if s.len() > 0 {
        lemma_parts_complete(s.drop_last());
        lemma_parts_push(s.drop_last(), s.last());
        assert(s.drop_last().push(s.last()) =~= s);
    }
}

/// Classifies a sequence of entitlements into the two-partition index.
///
/// Each partition denotes exactly the index of its namespace side's
/// records, inserted in input order with last-wins overwrite semantics.
pub fn classify(entitlements: &Vec<Entitlement>) -> (r: CatalogIndex)
    ensures
        r.wf(),
        partition_map(r.engine_view()) == catalog_map(
            engine_part(entitlement_views(entitlements@)),
        ),
        partition_map(r.non_engine_view()) == catalog_map(
            other_part(entitlement_views(entitlements@)),
        ),
{
    let mut engine: Vec<AssetGroup> = Vec::new();
    let mut non_engine: Vec<AssetGroup> = Vec::new();
    proof {
        assert(entitlement_views(entitlements@.take(0)) =~= Seq::<EntitlementView>::empty());
        lemma_parts_empty();
    }
    let n = entitlements.len();
    let mut i: usize = 0;
    while i < n
        invariant
            i <= n,
            n == entitlements@.len(),
            partition_wf(group_views(engine@)),
            partition_wf(group_views(non_engine@)),
            partition_side(group_views(engine@), true),
            partition_side(group_views(non_engine@), false),
            partition_map(group_views(engine@)) == catalog_map(
                engine_part(entitlement_views(entitlements@.take(i as int))),
            ),
            partition_map(group_views(non_engine@)) == catalog_map(
                other_part(entitlement_views(entitlements@.take(i as int))),
            ),
        decreases n - i,
    {
        let ghost prefix = entitlement_views(entitlements@.take(i as int));
        let e = entitlements[i].duplicate();
        let is_eng = str_eq(e.namespace.as_str(), "ue");
        proof {
            assert(entitlement_views(entitlements@.take(i + 1)) =~= prefix.push(e@));
            lemma_parts_push(prefix, e@);
            if is_eng {
                lemma_catalog_map_push(engine_part(prefix), e@);
            } else {
                lemma_catalog_map_push(other_part(prefix), e@);
            }
        }
        if is_eng {
            partition_insert(&mut engine, e);
        } else {
            partition_insert(&mut non_engine, e);
        }
        i = i + 1;
    }
    proof {
        assert(entitlements@.take(n as int) =~= entitlements@);
    }
    CatalogIndex { engine, non_engine }
}

/// Dedup law: two records sharing a `(catalog_item_id, app_name)` key
/// denote a one-entry index holding the later record.
pub proof fn lemma_dedup_last_wins(a: EntitlementView, b: EntitlementView)
    requires
        entry_key(a) == entry_key(b),
    ensures
        catalog_map(seq![a, b]) == Map::<(Seq<char>, Seq<char>), EntitlementView>::empty()
            .insert(entry_key(b), b),
        catalog_map(seq![a, b]).dom().len() == 1,
{
    assert(seq![a, b].drop_last() =~= seq![a]);
    assert(seq![a, b].last() == b);
    assert(seq![a].drop_last() =~= Seq::<EntitlementView>::empty());
    assert(seq![a].last() == a);
    assert(catalog_map(Seq::<EntitlementView>::empty()) == Map::<(Seq<char>, Seq<char>),
        EntitlementView,
    >::empty());
    assert(catalog_map(seq![a]) == Map::<(Seq<char>, Seq<char>), EntitlementView>::empty()
        .insert(entry_key(a), a));
    assert(Map::<(Seq<char>, Seq<char>), EntitlementView>::empty().insert(entry_key(a), a)
        .insert(entry_key(b), b) =~= Map::<(Seq<char>, Seq<char>),
        EntitlementView,
    >::empty().insert(entry_key(b), b));
    assert(catalog_map(seq![a, b]).dom() =~= Set::<(Seq<char>, Seq<char>)>::empty().insert(
        entry_key(b),
    ));
}

/// In a sequence whose keys do not repeat, the denoted index holds one
/// entry per record.
proof fn lemma_catalog_map_card(es: Seq<EntitlementView>)
    requires
        forall|k: int, l: int|
            0 <= k < l < es.len() ==> entry_key(#[trigger] es[k]) != entry_key(
                #[trigger] es[l],
            ),
    ensures
        catalog_map(es).dom().finite(),
        catalog_map(es).dom().len() == es.len(),
    decreases es.len(),
{
    if es.len() == 0 {
        assert(catalog_map(es).dom() =~= Set::<(Seq<char>, Seq<char>)>::empty());
    } else {
        let head = es.drop_last();
        lemma_catalog_map_card(head);
        let key = entry_key(es.last());
        lemma_catalog_map_dom(head, key);
        assert(!catalog_map(head).contains_key(key)) by {
            assert(forall|i: int|
                0 <= i < head.len() ==> entry_key(#[trigger] head[i]) != key);
        }
        assert(catalog_map(es).dom() =~= catalog_map(head).dom().insert(key));
    }
}

/// Size law: a well-formed partition holds exactly one entry per key of
/// its denoted index, so partition sizes count distinct keys.
pub proof fn lemma_partition_entry_count(gs: Seq<AssetGroupView>)
    requires
        partition_wf(gs),
    ensures
        partition_map(gs).dom().finite(),
        partition_entry_count(gs) == partition_map(gs).dom().len(),
    decreases gs.len(),
{
    if gs.len() > 0 {
        let head = gs.drop_last();
        let last = gs.last();
        assert(partition_wf(head)) by {
            assert(forall|i: int| 0 <= i < head.len() ==> gs[i] == #[trigger] head[i]);
        }
        lemma_partition_entry_count(head);
        assert(group_wf(gs[gs.len() - 1]));
        assert(forall|k: int, l: int|
            0 <= k < l < last.entries.len() ==> entry_key(#[trigger] last.entries[k])
                != entry_key(#[trigger] last.entries[l]));
        lemma_catalog_map_card(last.entries);
        let a = partition_map(head).dom();
        let b = catalog_map(last.entries).dom();
        assert(a.disjoint(b)) by {
            assert forall|key: (Seq<char>, Seq<char>)| a.contains(key) implies !b.contains(
                key,
            ) by {
                if b.contains(key) {
                    lemma_partition_map_dom(head, key);
                    let i = choose|i: int|
                        0 <= i < head.len() && catalog_map(
                            (#[trigger] head[i]).entries,
                        ).contains_key(key);
                    assert(group_wf(gs[i]));
                    lemma_group_keys_own_id(head[i], key);
                    lemma_group_keys_own_id(last, key);
                    assert(gs[i].catalog_item_id != gs[gs.len() - 1].catalog_item_id);
                }
            }
        }
        vstd::set_lib::lemma_set_disjoint_lens(a, b);
        assert(partition_map(gs).dom() =~= a + b);
    }
}

/// An index holds at most one entry per input record.
pub proof fn lemma_catalog_map_dom_le(es: Seq<EntitlementView>)
    ensures
        catalog_map(es).dom().finite(),
        catalog_map(es).dom().len() <= es.len(),
    decreases es.len(),
{
    if es.len() == 0 {
        assert(catalog_map(es).dom() =~= Set::<(Seq<char>, Seq<char>)>::empty());
    } else {
        let head = es.drop_last();
        lemma_catalog_map_dom_le(head);
        let key = entry_key(es.last());
        assert(catalog_map(es).dom() =~= catalog_map(head).dom().insert(key));
    }
}

/// Partition sizes law: an index whose partitions denote the two
/// namespace sides of an input holds, in each partition, one entry per
/// distinct key of that side; the two sides' records together exhaust
/// the input, so the partition sizes sum to the input count minus the
/// dedup collapses within each side.
pub proof fn lemma_index_sizes(
    s: Seq<EntitlementView>,
    engine: Seq<AssetGroupView>,
    non_engine: Seq<AssetGroupView>,
)
    requires
        partition_wf(engine),
        partition_wf(non_engine),
        partition_map(engine) == catalog_map(engine_part(s)),
        partition_map(non_engine) == catalog_map(other_part(s)),
    ensures
        partition_entry_count(engine) == catalog_map(engine_part(s)).dom().len(),
        partition_entry_count(non_engine) == catalog_map(other_part(s)).dom().len(),
        catalog_map(engine_part(s)).dom().len() <= engine_part(s).len(),
        catalog_map(other_part(s)).dom().len() <= other_part(s).len(),
        engine_part(s).len() + other_part(s).len() == s.len(),
{
    lemma_partition_entry_count(engine);
    lemma_partition_entry_count(non_engine);
    lemma_catalog_map_dom_le(engine_part(s));
    lemma_catalog_map_dom_le(other_part(s));
    lemma_parts_complete(s);
}

} // verus!
