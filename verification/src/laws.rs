//! The resolution laws: properties of the walker-fold and of the merge
//! algorithm, proved once over the models that the executable contracts
//! speak of.
use vstd::prelude::*;

use crate::parse::parsed_toml;
use crate::raw::RawV;
use crate::resolve::{agg_frags, lookup_frags, lookup_step};
use crate::value::{
    empty_mapping, merge_entries, merge_value, node_wf, table_get, table_idx, NodeV, ValueV,
};

verus! {

/// A chain with no fragments resolves nothing: point lookup finds no key,
/// and aggregation yields the empty mapping.
pub proof fn lemma_empty_chain(key: Seq<char>)
    ensures
        lookup_frags(Seq::empty(), key) is None,
        agg_frags(Seq::empty(), 0, empty_mapping()) == Some(empty_mapping()),
{
}

/// Nearest wins: when the nearest fragment's step succeeds for a key, point
/// lookup returns its value, never a farther fragment's.
pub proof fn lemma_nearest_wins(frags: Seq<(Seq<char>, Seq<char>)>, key: Seq<char>)
    requires
        frags.len() > 0,
        lookup_step(frags[0].0, frags[0].1, key) is Some,
    ensures
        lookup_frags(frags, key) == lookup_step(frags[0].0, frags[0].1, key),
{
}

/// A chain with exactly one fragment defining `key` as the scalar `v`:
/// point lookup returns that scalar, and aggregation's mapping binds `key`
/// to it, both with the fragment's path as provenance.
pub proof fn lemma_single_scalar_fragment(
    path: Seq<char>,
    contents: Seq<char>,
    key: Seq<char>,
    v: Seq<char>,
)
    requires
        parsed_toml(contents) == Some(seq![(key, RawV::Text(v))]),
    ensures
        lookup_frags(seq![(path, contents)], key) == Some(
            ValueV { value: NodeV::Str(v), path: seq![path] },
        ),
        agg_frags(seq![(path, contents)], 0, empty_mapping()) is Some,
        table_get(
            agg_frags(seq![(path, contents)], 0, empty_mapping())->0.value->Table_0,
            key,
        ) == Some(ValueV { value: NodeV::Str(v), path: seq![path] }),
{
    let frags = seq![(path, contents)];
    let doc = seq![(key, RawV::Text(v))];
    let sv = ValueV { value: NodeV::Str(v), path: seq![path] };
    assert(crate::raw::raw_table_get(doc, key) == Some(RawV::Text(v)));
    assert(lookup_step(frags[0].0, frags[0].1, key) == Some(sv));
    assert(lookup_frags(frags, key) == Some(sv));
    let tbl = seq![(key, sv)];
    assert(crate::raw::from_raw_entries(path, doc, 1) == Some(
        Seq::<(Seq<char>, ValueV)>::empty(),
    ));
    assert((seq![(key, sv)] + Seq::<(Seq<char>, ValueV)>::empty()) =~= tbl);
    assert(crate::raw::from_raw_entries(path, doc, 0) == Some(tbl));
    let fragval = ValueV { value: NodeV::Table(tbl), path: seq![path] };
    assert(crate::raw::from_raw(path, RawV::Table(doc)) == Some(fragval));
    assert(table_idx(Seq::<(Seq<char>, ValueV)>::empty(), key) == 0);
    assert(Seq::<(Seq<char>, ValueV)>::empty().push(tbl[0]) =~= tbl);
    assert(merge_entries(tbl, tbl, 1) == Some(tbl));
    assert(merge_entries(Seq::<(Seq<char>, ValueV)>::empty(), tbl, 0) == Some(tbl));
    let acc2 = merge_value(empty_mapping(), fragval)->0;
    assert(acc2.value == NodeV::Table(tbl));
    assert(agg_frags(frags, 1, acc2) == Some(acc2));
    assert(table_idx(tbl, key) == 0);
    assert(table_get(tbl, key) == Some(sv));
}

/// Sequence concatenation: merging list values concatenates them, the
/// accumulated (nearer) elements first, with length the sum of the input
/// lengths; the provenance lists concatenate the same way.
pub proof fn lemma_list_concat(a: ValueV, b: ValueV)
    requires
        a.value is List,
        b.value is List,
    ensures
        merge_value(a, b) is Some,
        merge_value(a, b)->0.value->List_0 == a.value->List_0 + b.value->List_0,
        merge_value(a, b)->0.value->List_0.len() == a.value->List_0.len()
            + b.value->List_0.len(),
        merge_value(a, b)->0.path == a.path + b.path,
{
}

/// Replacing an entry's value under its own key moves the first hit of no
/// key: lookups of `k` and of every other key land where they did.
proof fn lemma_table_idx_update(x: Seq<(Seq<char>, ValueV)>, j: int, m: ValueV)
    requires
        0 <= j < x.len(),
    ensures
        table_idx(x.update(j, (x[j].0, m)), x[j].0) == table_idx(x, x[j].0),
{
    let k = x[j].0;
    let x2 = x.update(j, (k, m));
    crate::value::lemma_table_idx(x, k);
    let i = table_idx(x, k);
    assert forall|t: int| 0 <= t < i implies (#[trigger] x2[t]).0 != k by {
        assert(x2[t].0 == x[t].0);
    }
    assert(x2[i].0 == k);
    crate::value::lemma_table_idx_first(x2, k, i);
}

/// Sequence concatenation through a whole mapping layer: when the
/// accumulated mapping binds `k` to a list and the incoming fragment's
/// mapping binds `k` to another list, the merged mapping binds `k` to their
/// concatenation, accumulated elements first — for any list contents.
pub proof fn lemma_mapping_list_concat(
    x: Seq<(Seq<char>, ValueV)>,
    k: Seq<char>,
    v1: ValueV,
    v2: ValueV,
    p: Seq<Seq<char>>,
    q: Seq<Seq<char>>,
)
    requires
        table_get(x, k) == Some(v1),
        v1.value is List,
        v2.value is List,
    ensures
        merge_value(
            ValueV { value: NodeV::Table(x), path: p },
            ValueV { value: NodeV::Table(seq![(k, v2)]), path: q },
        ) is Some,
        ({
            let merged = merge_value(
                ValueV { value: NodeV::Table(x), path: p },
                ValueV { value: NodeV::Table(seq![(k, v2)]), path: q },
            )->0;
            table_get(merged.value->Table_0, k) == Some(
                ValueV {
                    value: NodeV::List(v1.value->List_0 + v2.value->List_0),
                    path: v1.path + v2.path,
                },
            )
        }),
{
    let y = seq![(k, v2)];
    crate::value::lemma_table_idx(x, k);
    let j = table_idx(x, k);
    assert(x[j].1 == v1);
    let m = merge_value(x[j].1, y[0].1)->0;
    assert(m == (ValueV {
        value: NodeV::List(v1.value->List_0 + v2.value->List_0),
        path: v1.path + v2.path,
    }));
    let x2 = x.update(j, (k, m));
    assert(merge_entries(x2, y, 1) == Some(x2));
    assert(merge_entries(x, y, 0) == Some(x2));
    assert(x[j].0 == k);
    lemma_table_idx_update(x, j, m);
    assert(table_idx(x2, k) == j);
    assert(table_get(x2, k) == Some(m));
}

/// Kind conflict: merging two mappings that both define `k`, one with a
/// table and one with a scalar, fails — whichever of the two kinds sits in
/// the accumulated (nearer) layer.
pub proof fn lemma_type_conflict(
    x: Seq<(Seq<char>, ValueV)>,
    k: Seq<char>,
    v1: ValueV,
    v2: ValueV,
    p: Seq<Seq<char>>,
    q: Seq<Seq<char>>,
)
    requires
        table_get(x, k) == Some(v1),
        (v1.value is Table && v2.value is Str) || (v1.value is Str && v2.value is Table),
    ensures
        merge_value(
            ValueV { value: NodeV::Table(x), path: p },
            ValueV { value: NodeV::Table(seq![(k, v2)]), path: q },
        ) is None,
{
    let y = seq![(k, v2)];
    crate::value::lemma_table_idx(x, k);
    let j = table_idx(x, k);
    assert(x[j].1 == v1);
    assert(merge_value(x[j].1, y[0].1) is None);
    assert(merge_entries(x, y, 0) is None);
}

/// Tables with the same keys in the same positions index every key alike.
proof fn lemma_table_idx_same_keys(
    x: Seq<(Seq<char>, ValueV)>,
    x2: Seq<(Seq<char>, ValueV)>,
    k: Seq<char>,
)
    requires
        x.len() == x2.len(),
        forall|t: int| 0 <= t < x.len() ==> (#[trigger] x[t]).0 == x2[t].0,
    ensures
        table_idx(x, k) == table_idx(x2, k),
    decreases x.len(),
{
    if x.len() > 0 && x[0].0 != k {
        assert(forall|t: int|
            0 <= t < x.drop_first().len() ==> (#[trigger] x.drop_first()[t]).0
                == x2.drop_first()[t].0);
        lemma_table_idx_same_keys(x.drop_first(), x2.drop_first(), k);
    }
}

/// Appending an entry moves no existing first hit; an absent key is found at
/// the end exactly when the appended entry carries it.
proof fn lemma_table_idx_push(x: Seq<(Seq<char>, ValueV)>, e: (Seq<char>, ValueV), k: Seq<char>)
    ensures
        table_idx(x, k) < x.len() ==> table_idx(x.push(e), k) == table_idx(x, k),
        table_idx(x, k) == x.len() && e.0 == k ==> table_idx(x.push(e), k) == x.len(),
        table_idx(x, k) == x.len() && e.0 != k ==> table_idx(x.push(e), k) == x.len() + 1,
{
    crate::value::lemma_table_idx(x, k);
    let j = table_idx(x, k);
    let xp = x.push(e);
    assert(forall|t: int| 0 <= t < x.len() ==> (#[trigger] xp[t]) == x[t]);
    if j < x.len() {
        crate::value::lemma_table_idx_first(xp, k, j);
    } else if e.0 == k {
        crate::value::lemma_table_idx_first(xp, k, x.len() as int);
    } else {
        crate::value::lemma_table_idx_first(xp, k, x.len() as int + 1);
    }
}

/// What the entries fold binds each key to: a key of the incoming entries is
/// merged onto the accumulated entry when one exists and appended otherwise,
/// and every other key keeps its accumulated value.
proof fn lemma_merge_entries_get(x: Seq<(Seq<char>, ValueV)>, y: Seq<(Seq<char>, ValueV)>, i: int)
    requires
        0 <= i,
        forall|s: int, t: int| 0 <= s < t < y.len() ==> (#[trigger] y[s]).0 != (#[trigger] y[t]).0,
        merge_entries(x, y, i) is Some,
    ensures
        forall|t: int|
            i <= t < y.len() && table_get(x, (#[trigger] y[t]).0) is Some ==> merge_value(
                table_get(x, y[t].0)->0,
                y[t].1,
            ) is Some && table_get(merge_entries(x, y, i)->0, y[t].0) == Some(
                merge_value(table_get(x, y[t].0)->0, y[t].1)->0,
            ),
        forall|t: int|
            i <= t < y.len() && table_get(x, (#[trigger] y[t]).0) is None ==> table_get(
                merge_entries(x, y, i)->0,
                y[t].0,
            ) == Some(y[t].1),
        forall|k: Seq<char>|
            #![trigger table_get(merge_entries(x, y, i)->0, k)]
            (forall|t: int| i <= t < y.len() ==> (#[trigger] y[t]).0 != k) ==> table_get(
                merge_entries(x, y, i)->0,
                k,
            ) == table_get(x, k),
    decreases y.len() - i,
{
    if i < y.len() {
        let k0 = y[i].0;
        let j = table_idx(x, k0);
        crate::value::lemma_table_idx(x, k0);
        if j < x.len() {
            let m = merge_value(x[j].1, y[i].1)->0;
            let x2 = x.update(j, (k0, m));
            assert(x[j].0 == k0);
            lemma_merge_entries_get(x2, y, i + 1);
            assert forall|k: Seq<char>| true implies #[trigger] table_get(x2, k) == (if k == k0 {
                Some(m)
            } else {
                table_get(x, k)
            }) by {
                lemma_table_idx_same_keys(x, x2, k);
                crate::value::lemma_table_idx(x, k);
                crate::value::lemma_table_idx(x2, k);
            }
        } else {
            let x2 = x.push(y[i]);
            lemma_merge_entries_get(x2, y, i + 1);
            assert forall|k: Seq<char>| true implies #[trigger] table_get(x2, k) == (if k == k0 {
                Some(y[i].1)
            } else {
                table_get(x, k)
            }) by {
                lemma_table_idx_push(x, y[i], k);
                crate::value::lemma_table_idx(x, k);
                crate::value::lemma_table_idx(x2, k);
                assert(forall|t: int| 0 <= t < x.len() ==> (#[trigger] x2[t]) == x[t]);
                assert(x2[x.len() as int] == y[i as int]);
            }
        }
    }
}

/// The converted mapping of fragment `t` of the chain.
pub open spec fn layer_entries(frags: Seq<(Seq<char>, Seq<char>)>, t: int) -> Seq<
    (Seq<char>, ValueV),
> {
    crate::raw::from_raw(
        frags[t].0,
        RawV::Table(parsed_toml(frags[t].1)->0),
    )->0.value->Table_0
}

/// What a mapping binds `key` to, as a list; the empty list when unbound.
pub open spec fn bound_list(es: Seq<(Seq<char>, ValueV)>, key: Seq<char>) -> Seq<Seq<char>> {
    if table_get(es, key) is Some {
        table_get(es, key)->0.value->List_0
    } else {
        Seq::empty()
    }
}

/// Pairwise distinct keys.
pub open spec fn distinct_keys(es: Seq<(Seq<char>, ValueV)>) -> bool {
    forall|s: int, t: int| 0 <= s < t < es.len() ==> (#[trigger] es[s]).0 != (#[trigger] es[t]).0
}

/// The concatenation of the lists that the layers from `i` on bind to `key`,
/// in chain order: nearest first.
pub open spec fn layers_concat(frags: Seq<(Seq<char>, Seq<char>)>, key: Seq<char>, i: int) -> Seq<
    Seq<char>,
>
    decreases frags.len() - i,
{
    if i < 0 || frags.len() <= i {
        Seq::empty()
    } else {
        bound_list(layer_entries(frags, i), key) + layers_concat(frags, key, i + 1)
    }
}

/// The aggregate fold from layer `i` on, for a key that every remaining
/// layer binds to a list: the result binds `key` to the accumulated list
/// followed by each layer's elements in chain order.
proof fn lemma_agg_fold_lists(
    frags: Seq<(Seq<char>, Seq<char>)>,
    key: Seq<char>,
    i: int,
    acc: ValueV,
)
    requires
        0 <= i <= frags.len(),
        acc.value is Table,
        table_get(acc.value->Table_0, key) is Some ==> table_get(
            acc.value->Table_0,
            key,
        )->0.value is List,
        agg_frags(frags, i, acc) is Some,
        forall|t: int|
            i <= t < frags.len() ==> #[trigger] table_get(layer_entries(frags, t), key) is Some,
        forall|t: int|
            i <= t < frags.len() ==> (#[trigger] table_get(
                layer_entries(frags, t),
                key,
            ))->0.value is List,
        forall|t: int| i <= t < frags.len() ==> #[trigger] distinct_keys(layer_entries(frags, t)),
    ensures
        agg_frags(frags, i, acc)->0.value is Table,
        table_get(agg_frags(frags, i, acc)->0.value->Table_0, key) is Some <==> (table_get(
            acc.value->Table_0,
            key,
        ) is Some || i < frags.len()),
        table_get(agg_frags(frags, i, acc)->0.value->Table_0, key) is Some ==> table_get(
            agg_frags(frags, i, acc)->0.value->Table_0,
            key,
        )->0.value is List && table_get(
            agg_frags(frags, i, acc)->0.value->Table_0,
            key,
        )->0.value->List_0 == bound_list(acc.value->Table_0, key) + layers_concat(frags, key, i),
    decreases frags.len() - i,
{
    let a = acc.value->Table_0;
    if i < frags.len() {
        let ly = layer_entries(frags, i);
        let v = crate::raw::from_raw(frags[i].0, RawV::Table(parsed_toml(frags[i].1)->0))->0;
        let acc2 = merge_value(acc, v)->0;
        assert(distinct_keys(ly));
        lemma_merge_entries_get(a, ly, 0);
        crate::value::lemma_table_idx(ly, key);
        let ti = table_idx(ly, key);
        assert(ti < ly.len());
        assert(ly[ti].0 == key);
        assert(ly[ti].1 == table_get(ly, key)->0);
        let a2 = acc2.value->Table_0;
        assert(a2 == merge_entries(a, ly, 0)->0);
        if table_get(a, key) is Some {
            assert(table_get(a2, key) == Some(
                merge_value(table_get(a, key)->0, ly[ti].1)->0,
            ));
            assert(table_get(a2, key)->0.value->List_0 == bound_list(a, key) + bound_list(
                ly,
                key,
            ));
        } else {
            assert(table_get(a2, key) == Some(ly[ti].1));
            assert(bound_list(a, key) + bound_list(ly, key) =~= bound_list(ly, key));
        }
        lemma_agg_fold_lists(frags, key, i + 1, acc2);
        assert((bound_list(a, key) + bound_list(ly, key)) + layers_concat(frags, key, i + 1)
            =~= bound_list(a, key) + (bound_list(ly, key) + layers_concat(frags, key, i + 1)));
    } else {
        assert(bound_list(a, key) + layers_concat(frags, key, i) =~= bound_list(a, key));
    }
}

/// Sequence concatenation through the whole aggregation, for any number of
/// layers and any list contents: when aggregation succeeds and every
/// fragment's converted mapping binds `key` to a list, the aggregated
/// mapping binds `key` to the concatenation of those lists, the nearest
/// fragment's elements first.
pub proof fn lemma_aggregate_list_concat(frags: Seq<(Seq<char>, Seq<char>)>, key: Seq<char>)
    requires
        agg_frags(frags, 0, empty_mapping()) is Some,
        frags.len() > 0,
        forall|t: int|
            0 <= t < frags.len() ==> #[trigger] table_get(layer_entries(frags, t), key) is Some,
        forall|t: int|
            0 <= t < frags.len() ==> (#[trigger] table_get(
                layer_entries(frags, t),
                key,
            ))->0.value is List,
        forall|t: int| 0 <= t < frags.len() ==> #[trigger] distinct_keys(layer_entries(frags, t)),
    ensures
        agg_frags(frags, 0, empty_mapping())->0.value is Table,
        table_get(agg_frags(frags, 0, empty_mapping())->0.value->Table_0, key) is Some,
        table_get(
            agg_frags(frags, 0, empty_mapping())->0.value->Table_0,
            key,
        )->0.value->List_0 == layers_concat(frags, key, 0),
{
    lemma_agg_fold_lists(frags, key, 0, empty_mapping());
    assert(table_get(empty_mapping().value->Table_0, key) is None);
    assert(bound_list(empty_mapping().value->Table_0, key) + layers_concat(frags, key, 0)
        =~= layers_concat(frags, key, 0));
}

/// No list anywhere in the tree. Lists concatenate under merge and are
/// deliberately not idempotent, so the idempotence law excludes them.
pub open spec fn list_free(n: NodeV) -> bool
    decreases n,
{
    match n {
        NodeV::Str(_) => true,
        NodeV::List(_) => false,
        NodeV::Table(es) => forall|i: int|
            0 <= i < es.len() ==> list_free((#[trigger] es[i]).1.value),
    }
}

/// The tree with every provenance list removed: what "the same value" means
/// when provenance is allowed to accumulate.
pub open spec fn strip_node(n: NodeV) -> NodeV
    decreases n, 0int,
{
    match n {
        NodeV::Str(s) => NodeV::Str(s),
        NodeV::List(l) => NodeV::List(l),
        NodeV::Table(es) => NodeV::Table(strip_entries(es, es.len() as int)),
    }
}

pub open spec fn strip_entries(es: Seq<(Seq<char>, ValueV)>, n: int) -> Seq<(Seq<char>, ValueV)>
    decreases es, n,
{
    if n <= 0 || es.len() < n {
        Seq::empty()
    } else {
        strip_entries(es, n - 1).push((es[n - 1].0, strip_value(es[n - 1].1)))
    }
}

pub open spec fn strip_value(v: ValueV) -> ValueV
    decreases v, 1int,
{
    ValueV { value: strip_node(v.value), path: Seq::empty() }
}

proof fn lemma_strip_entries(es: Seq<(Seq<char>, ValueV)>, n: int)
    requires
        0 <= n <= es.len(),
    ensures
        strip_entries(es, n).len() == n,
        forall|t: int|
            0 <= t < n ==> #[trigger] strip_entries(es, n)[t] == (
                es[t].0,
                strip_value(es[t].1),
            ),
    decreases n,
{
    if n > 0 {
        lemma_strip_entries(es, n - 1);
    }
}

/// Merging a value onto one with the same stripped shape succeeds and keeps
/// that shape; only provenance moves.
proof fn lemma_self_merge(a: ValueV, b: ValueV)
    requires
        strip_value(a) == strip_value(b),
        node_wf(a.value),
        node_wf(b.value),
        list_free(a.value),
        list_free(b.value),
    ensures
        merge_value(a, b) is Some,
        strip_value(merge_value(a, b)->0) == strip_value(a),
        node_wf(merge_value(a, b)->0.value),
        list_free(merge_value(a, b)->0.value),
    decreases b, 1int,
{
    match b.value {
        NodeV::Str(_) => {
            assert(a.value is Str);
        },
        NodeV::List(_) => {
            assert(false);
        },
        NodeV::Table(y) => {
            assert(a.value is Table);
            let x = a.value->Table_0;
            lemma_strip_entries(x, x.len() as int);
            lemma_strip_entries(y, y.len() as int);
            assert(strip_entries(x, x.len() as int) == strip_entries(y, y.len() as int));
            assert(x.len() == y.len());
            assert forall|t: int| 0 <= t < y.len() implies (#[trigger] x[t]).0 == y[t].0
                && strip_value(x[t].1) == strip_value(y[t].1) by {
                assert(strip_entries(x, x.len() as int)[t] == strip_entries(
                    y,
                    y.len() as int,
                )[t]);
            }
            lemma_self_merge_entries(x, y, 0);
            let r = merge_entries(x, y, 0)->0;
            lemma_strip_entries(r, r.len() as int);
            assert(strip_entries(r, r.len() as int) =~= strip_entries(x, x.len() as int));
            assert(strip_value(merge_value(a, b)->0) == strip_value(a));
        },
    }
}

/// The entries fold of a self-shaped merge: every key of `y` hits the same
/// position in `x`, the merged entry keeps its stripped value, and the fold
/// never fails.
proof fn lemma_self_merge_entries(
    x: Seq<(Seq<char>, ValueV)>,
    y: Seq<(Seq<char>, ValueV)>,
    i: int,
)
    requires
        0 <= i,
        x.len() == y.len(),
        forall|t: int| 0 <= t < y.len() ==> (#[trigger] x[t]).0 == y[t].0,
        forall|t: int|
            0 <= t < y.len() ==> strip_value((#[trigger] x[t]).1) == strip_value(y[t].1),
        forall|s: int, t: int| 0 <= s < t < y.len() ==> (#[trigger] y[s]).0 != (#[trigger] y[t]).0,
        forall|t: int|
            0 <= t < y.len() ==> node_wf((#[trigger] x[t]).1.value) && node_wf(y[t].1.value)
                && list_free(x[t].1.value) && list_free(y[t].1.value),
    ensures
        merge_entries(x, y, i) is Some,
        merge_entries(x, y, i)->0.len() == x.len(),
        forall|t: int|
            0 <= t < x.len() ==> (#[trigger] merge_entries(x, y, i)->0[t]).0 == x[t].0,
        forall|t: int|
            0 <= t < x.len() ==> strip_value((#[trigger] merge_entries(x, y, i)->0[t]).1)
                == strip_value(x[t].1),
        forall|t: int|
            0 <= t < x.len() ==> node_wf((#[trigger] merge_entries(x, y, i)->0[t]).1.value)
                && list_free(merge_entries(x, y, i)->0[t].1.value),
    decreases y, y.len() - i,
{
    if i < y.len() {
        let k = y[i].0;
        crate::value::lemma_table_idx(x, k);
        assert forall|t: int| 0 <= t < i implies (#[trigger] x[t]).0 != k by {
            assert(y[t].0 != y[i].0);
        }
        crate::value::lemma_table_idx_first(x, k, i);
        assert(table_idx(x, k) == i);
        lemma_self_merge(x[i].1, y[i].1);
        let m = merge_value(x[i].1, y[i].1)->0;
        let x2 = x.update(i, (k, m));
        lemma_self_merge_entries(x2, y, i + 1);
        assert(merge_entries(x, y, i) == merge_entries(x2, y, i + 1));
    }
}

/// Value-level idempotence of merging: folding a list-free mapping into the
/// empty accumulator once and then once more yields the same scalar and
/// table values; the provenance list accumulates instead, gaining the
/// mapping's path entries a second time.
pub proof fn lemma_merge_idempotent(m: ValueV)
    requires
        m.value is Table,
        node_wf(m.value),
        list_free(m.value),
    ensures
        merge_value(empty_mapping(), m) is Some,
        merge_value(merge_value(empty_mapping(), m)->0, m) is Some,
        strip_value(merge_value(merge_value(empty_mapping(), m)->0, m)->0) == strip_value(
            merge_value(empty_mapping(), m)->0,
        ),
        strip_value(merge_value(empty_mapping(), m)->0) == strip_value(m),
        merge_value(merge_value(empty_mapping(), m)->0, m)->0.path == merge_value(
            empty_mapping(),
            m,
        )->0.path + m.path,
{
    let es = m.value->Table_0;
    assert(Seq::<(Seq<char>, ValueV)>::empty() =~= es.take(0));
    lemma_fold_fresh(Seq::empty(), es, 0);
    assert(merge_entries(Seq::empty(), es, 0) == Some(es));
    let r1 = merge_value(empty_mapping(), m)->0;
    assert(r1.value == NodeV::Table(es));
    assert(strip_value(r1) == strip_value(m));
    lemma_self_merge(r1, m);
}

/// Folding entries whose keys are all fresh appends them unchanged.
proof fn lemma_fold_fresh(x: Seq<(Seq<char>, ValueV)>, y: Seq<(Seq<char>, ValueV)>, i: int)
    requires
        0 <= i <= y.len(),
        x == y.take(i),
        forall|s: int, t: int| 0 <= s < t < y.len() ==> (#[trigger] y[s]).0 != (#[trigger] y[t]).0,
    ensures
        merge_entries(x, y, i) == Some(y),
    decreases y.len() - i,
{
    if i < y.len() {
        let k = y[i].0;
        assert forall|t: int| 0 <= t < i implies (#[trigger] x[t]).0 != k by {
            assert(x[t] == y[t]);
        }
        crate::value::lemma_table_idx_first(x, k, i);
        assert(table_idx(x, k) == x.len());
        assert(x.push(y[i]) =~= y.take(i + 1));
        lemma_fold_fresh(x.push(y[i]), y, i + 1);
    }
}

} // verus!
