//! The category aggregator.
//!
//! For each asset whose metadata lookup returned information, every
//! category path is collected; the distinct paths are produced as a
//! lexicographically sorted listing.  Absent metadata is an expected
//! skip, not an error.

use vstd::prelude::*;
use crate::lexical::lex_lt;
use crate::lexical::lemma_lex_lt_connected;
use crate::lexical::lemma_lex_lt_transitive;
use crate::lexical::lemma_strictly_sorted_unique;
use crate::lexical::str_eq;
use crate::lexical::str_lex_lt;
use crate::lexical::strictly_sorted;

verus! {

/// One category of an asset, identified by its path.
pub struct Category {
    /// The category's path, such as `assets/environments`.
    pub path: String,
}

/// The category metadata an asset-info lookup returns for one asset;
/// the category list itself may be absent.
pub struct AssetInfo {
    /// The categories the asset belongs to, when the backend reports any.
    pub categories: Option<Vec<Category>>,
}

/// The views of a sequence of strings.
pub open spec fn string_views(s: Seq<String>) -> Seq<Seq<char>> {
    s.map_values(|x: String| x@)
}

/// The paths of a sequence of categories.
pub open spec fn category_paths(cats: Seq<Category>) -> Seq<Seq<char>> {
    cats.map_values(|c: Category| c.path@)
}

/// The set of category paths one lookup result contributes; an absent
/// result or an absent category list contributes nothing.
pub open spec fn info_paths(info: Option<AssetInfo>) -> Set<Seq<char>> {
    match info {
        Option::Some(a) => match a.categories {
            Option::Some(cats) => category_paths(cats@).to_set(),
            Option::None => Set::<Seq<char>>::empty(),
        },
        Option::None => Set::<Seq<char>>::empty(),
    }
}

/// The set of category paths a sequence of lookup results contributes.
pub open spec fn all_paths(infos: Seq<Option<AssetInfo>>) -> Set<Seq<char>>
    decreases infos.len(),
{
    if infos.len() == 0 {
        Set::<Seq<char>>::empty()
    } else {
        all_paths(infos.drop_last()).union(info_paths(infos.last()))
    }
}

/// Inserting into a sequence inserts into its set of elements.
proof fn lemma_insert_to_set(s: Seq<Seq<char>>, i: int, v: Seq<char>)
    requires
        0 <= i <= s.len(),
    ensures
        s.insert(i, v).to_set() == s.to_set().insert(v),
{
    s.insert_ensures(i, v);
    let sv = s.insert(i, v);
    assert forall|x: Seq<char>| sv.to_set().contains(x) implies s.to_set().insert(v).contains(
        x,
    ) by {
        let k = choose|k: int| 0 <= k < sv.len() && sv[k] == x;
        if k < i {
            assert(s[k] == x);
            assert(s.contains(x));
        } else if k > i {
            assert(sv[(k - 1) + 1] == s[k - 1]);
            assert(s.contains(x));
        }
    }
    assert forall|x: Seq<char>| s.to_set().insert(v).contains(x) implies sv.to_set().contains(
        x,
    ) by {
        if x == v {
            assert(sv[i] == v);
            assert(sv.contains(x));
        } else {
            let k = choose|k: int| 0 <= k < s.len() && s[k] == x;
            if k < i {
                assert(sv[k] == x);
            } else {
                assert(sv[k + 1] == x);
            }
            assert(sv.contains(x));
        }
    }
    assert(sv.to_set() =~= s.to_set().insert(v));
}

/// Inserts one path into a sorted listing, keeping the listing strictly
/// sorted while adding the path to its set of elements.
fn insert_sorted(listing: &mut Vec<String>, s: String)
    requires
        strictly_sorted(string_views(old(listing)@)),
    ensures
        strictly_sorted(string_views(final(listing)@)),
        string_views(final(listing)@).to_set() == string_views(old(listing)@).to_set().insert(
            s@,
        ),
{
    let n = listing.len();
    let mut i: usize = 0;
    while i < n && str_lex_lt(listing[i].as_str(), s.as_str())
        invariant
            i <= n,
            n == listing@.len(),
            listing@ == old(listing)@,
            forall|j: int| 0 <= j < i ==> lex_lt(#[trigger] string_views(listing@)[j], s@),
        decreases n - i,
    {
        i = i + 1;
    }
    if i < n && str_eq(listing[i].as_str(), s.as_str()) {
        proof {
            let vs = string_views(listing@);
            assert(vs[i as int] == s@);
            assert(vs.contains(s@));
            assert(vs.to_set().insert(s@) =~= vs.to_set());
        }
    } else {
        let ghost vs0 = string_views(listing@);
        let ghost pos = i as int;
        proof {
            if pos < vs0.len() {
                assert(!lex_lt(vs0[pos], s@));
                assert(vs0[pos] != s@);
                lemma_lex_lt_connected(vs0[pos], s@);
                assert(lex_lt(s@, vs0[pos]));
            }
        }
        listing.insert(i, s);
        proof {
            vs0.insert_ensures(pos, s@);
            assert(string_views(listing@) =~= vs0.insert(pos, s@));
            let nv = string_views(listing@);
            assert forall|a: int, b: int| 0 <= a < b < nv.len() implies lex_lt(
                nv[a],
                nv[b],
            ) by {
                if b < pos {
                    assert(nv[a] == vs0[a] && nv[b] == vs0[b]);
                } else if b == pos {
                    assert(nv[a] == vs0[a]);
                    assert(lex_lt(vs0[a], s@));
                } else if a < pos {
                    assert(nv[a] == vs0[a]);
                    assert(nv[(b - 1) + 1] == vs0[b - 1]);
                    if a == b - 1 {
                        assert(false);
                    }
                    assert(lex_lt(vs0[a], vs0[b - 1]));
                } else if a == pos {
                    assert(nv[(b - 1) + 1] == vs0[b - 1]);
                    assert(lex_lt(s@, vs0[pos]));
                    if b - 1 > pos {
                        assert(lex_lt(vs0[pos], vs0[b - 1]));
                        lemma_lex_lt_transitive(s@, vs0[pos], vs0[b - 1]);
                    }
                } else {
                    assert(nv[(a - 1) + 1] == vs0[a - 1]);
                    assert(nv[(b - 1) + 1] == vs0[b - 1]);
                    assert(lex_lt(vs0[a - 1], vs0[b - 1]));
                }
            }
            lemma_insert_to_set(vs0, pos, s@);
        }
    }
}

/// Aggregates the category paths of a sequence of lookup results into a
/// listing that is strictly sorted lexicographically — hence free of
/// duplicates — and holds exactly the distinct paths the inputs
/// contribute.
pub fn aggregate_categories(infos: &Vec<Option<AssetInfo>>) -> (r: Vec<String>)
    ensures
        strictly_sorted(string_views(r@)),
        string_views(r@).to_set() == all_paths(infos@),
{
    let mut listing: Vec<String> = Vec::new();
    proof {
        assert(infos@.take(0) =~= Seq::<Option<AssetInfo>>::empty());
        assert(string_views(listing@).to_set() =~= all_paths(infos@.take(0)));
    }
    let n = infos.len();
    let mut i: usize = 0;
    while i < n
        invariant
            i <= n,
            n == infos@.len(),
            strictly_sorted(string_views(listing@)),
            string_views(listing@).to_set() == all_paths(infos@.take(i as int)),
        decreases n - i,
    {
        let ghost base = all_paths(infos@.take(i as int));
        proof {
            assert(infos@.take(i + 1).drop_last() =~= infos@.take(i as int));
            assert(infos@.take(i + 1).last() == infos@[i as int]);
        }
        match &infos[i] {
            Option::None => {
                proof {
                    assert(base.union(Set::<Seq<char>>::empty()) =~= base);
                }
            },
            Option::Some(info) => {
                match &info.categories {
                    Option::None => {
                        proof {
                            assert(base.union(Set::<Seq<char>>::empty()) =~= base);
                        }
                    },
                    Option::Some(cats) => {
                        let ghost cpaths = category_paths(cats@);
                        let m = cats.len();
                        let mut k: usize = 0;
                        proof {
                            assert(cpaths.take(0) =~= Seq::<Seq<char>>::empty());
                            assert(cpaths.take(0).to_set() =~= Set::<Seq<char>>::empty());
                            assert(base.union(cpaths.take(0).to_set()) =~= base);
                        }
                        while k < m
                            invariant
                                k <= m,
                                m == cats@.len(),
                                cpaths == category_paths(cats@),
                                strictly_sorted(string_views(listing@)),
                                string_views(listing@).to_set() == base.union(
                                    cpaths.take(k as int).to_set(),
                                ),
                            decreases m - k,
                        {
                            insert_sorted(&mut listing, cats[k].path.clone());
                            proof {
                                assert(cpaths.take(k + 1) =~= cpaths.take(k as int).push(
                                    cpaths[k as int],
                                ));
                                assert(cpaths.take(k as int).push(cpaths[k as int]).to_set()
                                    =~= cpaths.take(k as int).to_set().insert(
                                    cpaths[k as int],
                                )) by {
                                    let tk = cpaths.take(k as int);
                                    assert forall|x: Seq<char>|
                                        tk.push(cpaths[k as int]).to_set().contains(x)
                                            implies tk.to_set().insert(cpaths[k as int])
                                            .contains(x) by {
                                        let j = choose|j: int|
                                            0 <= j < tk.push(cpaths[k as int]).len()
                                                && tk.push(cpaths[k as int])[j] == x;
                                        if j < tk.len() {
                                            assert(tk[j] == x);
                                            assert(tk.contains(x));
                                        }
                                    }
                                    assert forall|x: Seq<char>|
                                        tk.to_set().insert(cpaths[k as int]).contains(x)
                                            implies tk.push(cpaths[k as int]).to_set()
                                            .contains(x) by {
                                        if x == cpaths[k as int] {
                                            assert(tk.push(x)[tk.len() as int] == x);
                                            assert(tk.push(cpaths[k as int]).contains(x));
                                        } else {
                                            let j = choose|j: int|
                                                0 <= j < tk.len() && tk[j] == x;
                                            assert(tk.push(cpaths[k as int])[j] == x);
                                            assert(tk.push(cpaths[k as int]).contains(x));
                                        }
                                    }
                                }
                                assert(base.union(cpaths.take(k as int).to_set()).insert(
                                    cpaths[k as int],
                                ) =~= base.union(cpaths.take(k + 1).to_set()));
                            }
                            k = k + 1;
                        }
                        proof {
                            assert(cpaths.take(m as int) =~= cpaths);
                            assert(base.union(cpaths.to_set()) == all_paths(
                                infos@.take(i + 1),
                            ));
                        }
                    },
                }
            },
        }
        i = i + 1;
    }
    proof {
        assert(infos@.take(n as int) =~= infos@);
    }
    listing
}

/// Canonical-listing law: two aggregations whose inputs contribute the
/// same set of category paths produce the same listing, whatever the
/// order and multiplicity of their inputs.  In particular, aggregating
/// a listing's own paths again reproduces the listing.
pub proof fn lemma_aggregation_canonical(
    infos1: Seq<Option<AssetInfo>>,
    infos2: Seq<Option<AssetInfo>>,
    out1: Seq<Seq<char>>,
    out2: Seq<Seq<char>>,
)
    requires
        all_paths(infos1) == all_paths(infos2),
        strictly_sorted(out1),
        out1.to_set() == all_paths(infos1),
        strictly_sorted(out2),
        out2.to_set() == all_paths(infos2),
    ensures
        out1 == out2,
{
    lemma_strictly_sorted_unique(out1, out2);
}

} // verus!
