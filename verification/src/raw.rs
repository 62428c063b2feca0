//! The plain value tree a parsed fragment reduces to, and its conversion
//! into the typed configuration tree.
//!
//! A parser yields strings, arrays, tables, and primitive kinds outside this
//! domain (numbers, booleans, floats, datetimes); the latter all collapse to
//! `Other`, since conversion rejects them uniformly.
use vstd::prelude::*;

use crate::ConfigError;
use crate::value::{ConfigValue, ConfigValueValue, NodeV, ValueV};

verus! {

/// Mathematical model of one parsed fragment value.
#[verifier::ext_equal]
pub enum RawV {
    Text(Seq<char>),
    Array(Seq<RawV>),
    Table(Seq<(Seq<char>, RawV)>),
    Other,
}

/// One parsed fragment value, as handed over by the format parser.
pub enum RawValue {
    Text(String),
    Array(Vec<RawValue>),
    Table(Vec<(String, RawValue)>),
    Other,
}

/// Model of the first `n` array items, in order.
pub open spec fn raw_items_view(xs: Seq<RawValue>, n: int) -> Seq<RawV>
    decreases xs, n,
{
    if n <= 0 || xs.len() < n {
        Seq::empty()
    } else {
        raw_items_view(xs, n - 1).push(raw_view(xs[n - 1]))
    }
}

/// Model of the first `n` table entries, in order.
pub open spec fn raw_entries_view(es: Seq<(String, RawValue)>, n: int) -> Seq<(Seq<char>, RawV)>
    decreases es, n,
{
    if n <= 0 || es.len() < n {
        Seq::empty()
    } else {
        raw_entries_view(es, n - 1).push((es[n - 1].0@, raw_view(es[n - 1].1)))
    }
}

pub open spec fn raw_view(v: RawValue) -> RawV
    decreases v, 1int,
{
    match v {
        RawValue::Text(s) => RawV::Text(s@),
        RawValue::Array(xs) => RawV::Array(raw_items_view(xs@, xs@.len() as int)),
        RawValue::Table(es) => RawV::Table(raw_entries_view(es@, es@.len() as int)),
        RawValue::Other => RawV::Other,
    }
}

impl View for RawValue {
    type V = RawV;

    open spec fn view(&self) -> RawV {
        raw_view(*self)
    }
}

pub proof fn lemma_raw_items_view(xs: Seq<RawValue>, n: int)
    requires
        0 <= n <= xs.len(),
    ensures
        raw_items_view(xs, n).len() == n,
        forall|i: int| 0 <= i < n ==> #[trigger] raw_items_view(xs, n)[i] == raw_view(xs[i]),
    decreases n,
{
    if n > 0 {
        lemma_raw_items_view(xs, n - 1);
    }
}

pub proof fn lemma_raw_entries_view(es: Seq<(String, RawValue)>, n: int)
    requires
        0 <= n <= es.len(),
    ensures
        raw_entries_view(es, n).len() == n,
        forall|i: int|
            0 <= i < n ==> #[trigger] raw_entries_view(es, n)[i] == (
                es[i].0@,
                raw_view(es[i].1),
            ),
    decreases n,
{
    if n > 0 {
        lemma_raw_entries_view(es, n - 1);
    }
}

/// Index of the first parsed entry with key `k`, or `es.len()`.
pub open spec fn raw_table_idx(es: Seq<(Seq<char>, RawV)>, k: Seq<char>) -> int
    decreases es.len(),
{
    if es.len() == 0 {
        0
    } else if es[0].0 == k {
        0
    } else {
        1 + raw_table_idx(es.drop_first(), k)
    }
}

/// Key-addressed access into a parsed table.
pub open spec fn raw_table_get(es: Seq<(Seq<char>, RawV)>, k: Seq<char>) -> Option<RawV> {
    if raw_table_idx(es, k) < es.len() {
        Some(es[raw_table_idx(es, k)].1)
    } else {
        None
    }
}

/// Well-formedness of a parsed value: every table in the tree has pairwise
/// distinct keys, as the format parser guarantees.
pub open spec fn raw_wf(r: RawV) -> bool
    decreases r, 1int,
{
    match r {
        RawV::Text(_) => true,
        RawV::Other => true,
        RawV::Array(xs) => raw_items_wf(xs, xs.len() as int),
        RawV::Table(es) => {
            &&& forall|i: int, j: int|
                0 <= i < j < es.len() ==> (#[trigger] es[i]).0 != (#[trigger] es[j]).0
            &&& raw_children_wf(es, es.len() as int)
        },
    }
}

/// Well-formedness of the first `n` array items.
pub open spec fn raw_items_wf(xs: Seq<RawV>, n: int) -> bool
    decreases xs, n,
{
    if n <= 0 || xs.len() < n {
        true
    } else {
        raw_items_wf(xs, n - 1) && raw_wf(xs[n - 1])
    }
}

/// Well-formedness of the first `n` table entries' values.
pub open spec fn raw_children_wf(es: Seq<(Seq<char>, RawV)>, n: int) -> bool
    decreases es, n,
{
    if n <= 0 || es.len() < n {
        true
    } else {
        raw_children_wf(es, n - 1) && raw_wf(es[n - 1].1)
    }
}

pub proof fn lemma_raw_children_wf(es: Seq<(Seq<char>, RawV)>, n: int)
    requires
        0 <= n <= es.len(),
        raw_children_wf(es, n),
    ensures
        forall|t: int| 0 <= t < n ==> #[trigger] raw_wf(es[t].1),
    decreases n,
{
    if n > 0 {
        lemma_raw_children_wf(es, n - 1);
    }
}

/// A well-formed table's entries are well-formed.
pub proof fn lemma_raw_table_wf_child(es: Seq<(Seq<char>, RawV)>, j: int)
    requires
        raw_wf(RawV::Table(es)),
        0 <= j < es.len(),
    ensures
        raw_wf(es[j].1),
{
    lemma_raw_children_wf(es, es.len() as int);
}

/// Conversion keeps well-formedness: the keys of a converted table are the
/// parsed table's keys, in order, and every converted value is well-formed.
pub proof fn lemma_from_raw_wf(path: Seq<char>, r: RawV)
    requires
        raw_wf(r),
        from_raw(path, r) is Some,
    ensures
        crate::value::node_wf(from_raw(path, r)->0.value),
    decreases r, 1int,
{
    if r is Table {
        let es = r->Table_0;
        lemma_raw_children_wf(es, es.len() as int);
        lemma_from_raw_entries_wf(path, es, 0);
    }
}

proof fn lemma_from_raw_entries_wf(path: Seq<char>, es: Seq<(Seq<char>, RawV)>, i: int)
    requires
        0 <= i <= es.len(),
        forall|t: int| 0 <= t < es.len() ==> #[trigger] raw_wf(es[t].1),
        from_raw_entries(path, es, i) is Some,
    ensures
        from_raw_entries(path, es, i)->0.len() == es.len() - i,
        forall|t: int|
            0 <= t < es.len() - i ==> (#[trigger] from_raw_entries(path, es, i)->0[t]).0 == es[i
                + t].0,
        forall|t: int|
            0 <= t < es.len() - i ==> crate::value::node_wf(
                (#[trigger] from_raw_entries(path, es, i)->0[t]).1.value,
            ),
    decreases es, es.len() - i,
{
    if i < es.len() {
        lemma_from_raw_wf(path, es[i].1);
        lemma_from_raw_entries_wf(path, es, i + 1);
        let rest = from_raw_entries(path, es, i + 1)->0;
        let v = from_raw(path, es[i].1)->0;
        assert(from_raw_entries(path, es, i)->0 == seq![(es[i].0, v)] + rest);
        assert forall|t: int| 0 <= t < es.len() - i implies (#[trigger] from_raw_entries(
            path,
            es,
            i,
        )->0[t]).0 == es[i + t].0 by {
            if t > 0 {
                assert((seq![(es[i].0, v)] + rest)[t] == rest[t - 1]);
            }
        }
        assert forall|t: int| 0 <= t < es.len() - i implies crate::value::node_wf(
            (#[trigger] from_raw_entries(path, es, i)->0[t]).1.value,
        ) by {
            if t > 0 {
                assert((seq![(es[i].0, v)] + rest)[t] == rest[t - 1]);
            }
        }
    }
}

/// `raw_table_idx` is the unique position that has no hit before it and a
/// hit (or the end) at it.
proof fn lemma_raw_table_idx_first(es: Seq<(Seq<char>, RawV)>, k: Seq<char>, j: int)
    requires
        0 <= j <= es.len(),
        forall|t: int| 0 <= t < j ==> (#[trigger] es[t]).0 != k,
        j < es.len() ==> es[j].0 == k,
    ensures
        raw_table_idx(es, k) == j,
    decreases es.len(),
{
    if es.len() > 0 && es[0].0 != k {
        assert(j >= 1);
        lemma_raw_table_idx_first(es.drop_first(), k, j - 1);
        assert forall|t: int| 0 <= t < j - 1 implies (#[trigger] es.drop_first()[t]).0 != k by {
            assert(es.drop_first()[t] == es[t + 1]);
        }
        if j - 1 < es.drop_first().len() {
            assert(es.drop_first()[j - 1] == es[j]);
        }
    }
}

/// Position of the first parsed entry of `es` whose key is `k`, or `es.len()`.
#[verifier::loop_isolation(false)]
pub fn raw_find_key(es: &Vec<(String, RawValue)>, k: &String) -> (j: usize)
    ensures
        j == raw_table_idx(raw_entries_view(es@, es@.len() as int), k@),
{
    proof {
        lemma_raw_entries_view(es@, es@.len() as int);
    }
    let ghost ev = raw_entries_view(es@, es@.len() as int);
    let mut j: usize = 0;
    while j < es.len()
        invariant
            j <= es@.len(),
            forall|t: int| 0 <= t < j ==> (#[trigger] ev[t]).0 != k@,
        decreases es@.len() - j,
    {
        if es[j].0 == *k {
            proof {
                lemma_raw_table_idx_first(ev, k@, j as int);
            }
            return j;
        }
        j += 1;
    }
    proof {
        lemma_raw_table_idx_first(ev, k@, j as int);
    }
    j
}

/// Conversion of one parsed value into the typed tree, seeded with the
/// fragment path as provenance. `None` rejects: an array with a non-string
/// item, or a primitive kind outside this domain.
pub open spec fn from_raw(path: Seq<char>, r: RawV) -> Option<ValueV>
    decreases r, 1int,
{
    match r {
        RawV::Text(s) => Some(ValueV { value: NodeV::Str(s), path: seq![path] }),
        RawV::Array(xs) => if forall|i: int| 0 <= i < xs.len() ==> (#[trigger] xs[i]) is Text {
            Some(
                ValueV {
                    value: NodeV::List(Seq::new(xs.len(), |i: int| xs[i]->Text_0)),
                    path: seq![path],
                },
            )
        } else {
            None
        },
        RawV::Table(es) => match from_raw_entries(path, es, 0) {
            Some(t) => Some(ValueV { value: NodeV::Table(t), path: seq![path] }),
            None => None,
        },
        RawV::Other => None,
    }
}

/// Conversion of the parsed entries `es[i..]`, in order; the first rejected
/// entry rejects the table.
pub open spec fn from_raw_entries(path: Seq<char>, es: Seq<(Seq<char>, RawV)>, i: int) -> Option<
    Seq<(Seq<char>, ValueV)>,
>
    decreases es, es.len() - i,
{
    if i < 0 || es.len() <= i {
        Some(Seq::empty())
    } else {
        match (from_raw(path, es[i].1), from_raw_entries(path, es, i + 1)) {
            (Some(v), Some(rest)) => Some(seq![(es[i].0, v)] + rest),
            _ => None,
        }
    }
}

/// The short name of a parsed value's kind, as diagnostics use it.
pub open spec fn raw_kind_desc(r: RawV) -> Seq<char> {
    match r {
        RawV::Text(_) => "string"@,
        RawV::Array(_) => "array"@,
        RawV::Table(_) => "table"@,
        RawV::Other => "other value"@,
    }
}

/// Index of the first array item that is not a string, or `xs.len()`.
pub open spec fn first_non_text(xs: Seq<RawV>) -> int
    decreases xs.len(),
{
    if xs.len() == 0 {
        0
    } else if !(xs[0] is Text) {
        0
    } else {
        1 + first_non_text(xs.drop_first())
    }
}

/// `first_non_text` is the unique position with only strings before it and
/// a non-string (or the end) at it.
proof fn lemma_first_non_text(xs: Seq<RawV>, j: int)
    requires
        0 <= j <= xs.len(),
        forall|t: int| 0 <= t < j ==> (#[trigger] xs[t]) is Text,
        j < xs.len() ==> !(xs[j] is Text),
    ensures
        first_non_text(xs) == j,
    decreases xs.len(),
{
    if xs.len() > 0 && xs[0] is Text {
        assert(j >= 1);
        assert(forall|t: int|
            0 <= t < j - 1 ==> (#[trigger] xs.drop_first()[t]) == xs[t + 1]);
        if j - 1 < xs.drop_first().len() {
            assert(xs.drop_first()[j - 1] == xs[j]);
        }
        lemma_first_non_text(xs.drop_first(), j - 1);
    }
}

/// What a failed conversion reports: the expected and the found kind name,
/// and the dotted key path to the first rejected value (empty at the root).
pub open spec fn conv_conflict(path: Seq<char>, r: RawV) -> (Seq<char>, Seq<char>, Seq<char>)
    decreases r, 1int,
{
    match r {
        RawV::Text(_) => (Seq::empty(), Seq::empty(), Seq::empty()),
        RawV::Other => ("string, array or table"@, "other value"@, Seq::empty()),
        RawV::Array(xs) => ("string"@, raw_kind_desc(xs[first_non_text(xs)]), Seq::empty()),
        RawV::Table(es) => conv_conflict_entries(path, es, 0),
    }
}

/// The conflict reported for a parsed table: that of the first entry whose
/// conversion is rejected, under that entry's key.
pub open spec fn conv_conflict_entries(
    path: Seq<char>,
    es: Seq<(Seq<char>, RawV)>,
    i: int,
) -> (Seq<char>, Seq<char>, Seq<char>)
    decreases es, es.len() - i,
{
    if i < 0 || es.len() <= i {
        (Seq::empty(), Seq::empty(), Seq::empty())
    } else if from_raw(path, es[i].1) is None {
        let c = conv_conflict(path, es[i].1);
        (c.0, c.1, crate::value::joined_key(es[i].0, c.2))
    } else {
        conv_conflict_entries(path, es, i + 1)
    }
}

impl RawValue {
    /// Short name of this parsed value's kind, for diagnostics.
    fn kind_name(&self) -> (r: &'static str)
        ensures
            r@ == raw_kind_desc(self@),
    {
        match self {
            RawValue::Text(_) => "string",
            RawValue::Array(_) => "array",
            RawValue::Table(_) => "table",
            RawValue::Other => "other value",
        }
    }
}

/// Convert one parsed value into a typed configuration value whose
/// provenance is seeded with the fragment path `path`. `Err` is a kind
/// rejection, exactly when the model-level conversion rejects.
#[verifier::loop_isolation(false)]
pub fn from_toml(path: &str, raw: RawValue) -> (r: Result<ConfigValue, ConfigError>)
    ensures
        r is Ok <==> from_raw(path@, raw@) is Some,
        r is Ok ==> r->Ok_0@ == from_raw(path@, raw@)->0,
        r is Err ==> (r->Err_0 matches ConfigError::TypeMismatch { expected, found, key }
            && expected@ == conv_conflict(path@, raw@).0 && found@ == conv_conflict(
            path@,
            raw@,
        ).1 && key@ == conv_conflict(path@, raw@).2),
    decreases raw@,
{
    let ghost rv = raw@;
    match raw {
        RawValue::Text(s) => {
            let mut p: Vec<String> = Vec::new();
            p.push(path.to_owned());
            let r = ConfigValue { value: ConfigValueValue::Str(s), path: p };
            proof {
                assert(p.deep_view() =~= seq![path@]);
                assert(r@ =~= from_raw(path@, rv)->0);
            }
            Ok(r)
        },
        RawValue::Array(xs) => {
            let mut xs = xs;
            let ghost xsq = xs@;
            let ghost xv = raw_items_view(xsq, xsq.len() as int);
            proof {
                lemma_raw_items_view(xsq, xsq.len() as int);
            }
            let mut l: Vec<String> = Vec::new();
            let n0 = xs.len();
            let mut i: usize = 0;
            while xs.len() > 0
                invariant
                    xsq.len() == n0,
                    i + xs@.len() == n0,
                    xs@ == xsq.subrange(i as int, xsq.len() as int),
                    forall|t: int| 0 <= t < i ==> (#[trigger] xv[t]) is Text,
                    l@.len() == i,
                    forall|t: int| 0 <= t < i ==> #[trigger] l.deep_view()[t] == xv[t]->Text_0,
                decreases xs@.len(),
            {
                let e = xs.remove(0);
                proof {
                    assert(e == xsq[i as int]);
                    assert(e@ == xv[i as int]);
                    assert(xs@ =~= xsq.subrange(i + 1 as int, xsq.len() as int));
                }
                match e {
                    RawValue::Text(s) => {
                        let ghost lv_old = l.deep_view();
                        let ghost sv = s@;
                        l.push(s);
                        proof {
                            assert(l.deep_view() =~= lv_old.push(sv));
                        }
                    },
                    other => {
                        proof {
                            assert(!(xv[i as int] is Text));
                            assert(from_raw(path@, rv) is None);
                            lemma_first_non_text(xv, i as int);
                            assert(other@ == xv[i as int]);
                        }
                        return Err(ConfigError::TypeMismatch {
                            expected: "string".to_owned(),
                            found: other.kind_name().to_owned(),
                            key: String::new(),
                        });
                    },
                }
                i += 1;
            }
            let mut p: Vec<String> = Vec::new();
            p.push(path.to_owned());
            let r = ConfigValue { value: ConfigValueValue::List(l), path: p };
            proof {
                assert(forall|t: int| 0 <= t < xv.len() ==> (#[trigger] xv[t]) is Text);
                assert(l.deep_view() =~= Seq::new(xv.len(), |t: int| xv[t]->Text_0));
                assert(p.deep_view() =~= seq![path@]);
                assert(from_raw(path@, rv) is Some);
                assert(r@ =~= from_raw(path@, rv)->0);
            }
            Ok(r)
        },
        RawValue::Table(es) => {
            let mut es = es;
            let ghost esq = es@;
            let ghost ev = raw_entries_view(esq, esq.len() as int);
            proof {
                lemma_raw_entries_view(esq, esq.len() as int);
                assert(rv == RawV::Table(ev));
            }
            let mut out: Vec<(String, ConfigValue)> = Vec::new();
            let n0 = es.len();
            let mut i: usize = 0;
            while es.len() > 0
                invariant
                    esq.len() == n0,
                    i + es@.len() == n0,
                    es@ == esq.subrange(i as int, esq.len() as int),
                    from_raw_entries(path@, ev, 0) == (match from_raw_entries(
                        path@,
                        ev,
                        i as int,
                    ) {
                        Some(rest) => Some(
                            crate::value::entries_view(out@, out@.len() as int) + rest,
                        ),
                        None => None::<Seq<(Seq<char>, ValueV)>>,
                    }),
                    conv_conflict_entries(path@, ev, 0) == conv_conflict_entries(
                        path@,
                        ev,
                        i as int,
                    ),
                decreases es@.len(),
            {
                let (k, v) = es.remove(0);
                proof {
                    assert((k, v) == esq[i as int]);
                    assert(es@ =~= esq.subrange(i + 1 as int, esq.len() as int));
                    assert(ev[i as int] == (k@, v@));
                    assert(decreases_to!(ev => ev[i as int]));
                    assert(decreases_to!(rv => v@));
                }
                let cv = match from_toml(path, v) {
                    Ok(c) => c,
                    Err(e) => {
                        proof {
                            assert(from_raw_entries(path@, ev, i as int) is None);
                            assert(from_raw(path@, rv) is None);
                            assert(conv_conflict_entries(path@, ev, i as int) == (
                            conv_conflict(path@, v@).0,
                                conv_conflict(path@, v@).1,
                                crate::value::joined_key(k@, conv_conflict(path@, v@).2),
                            ));
                        }
                        return Err(crate::value::prefix_key(e, k));
                    },
                };
                let ghost outq_old = out@;
                let ghost outv_old = crate::value::entries_view(out@, out@.len() as int);
                out.push((k, cv));
                proof {
                    crate::value::lemma_entries_view(outq_old, outq_old.len() as int);
                    crate::value::lemma_entries_view(out@, out@.len() as int);
                    assert(crate::value::entries_view(out@, out@.len() as int) =~= outv_old.push(
                        (k@, cv@),
                    ));
                    if from_raw_entries(path@, ev, i + 1 as int) is Some {
                        let rest = from_raw_entries(path@, ev, i + 1 as int)->0;
                        assert((outv_old + (seq![(k@, cv@)] + rest)) =~= (outv_old.push((k@, cv@))
                            + rest));
                    }
                }
                i += 1;
            }
            let mut p: Vec<String> = Vec::new();
            p.push(path.to_owned());
            let ghost outv = crate::value::entries_view(out@, out@.len() as int);
            let r = ConfigValue { value: ConfigValueValue::Table(out), path: p };
            proof {
                assert(from_raw_entries(path@, ev, i as int) == Some(
                    Seq::<(Seq<char>, ValueV)>::empty(),
                ));
                assert((outv + Seq::<(Seq<char>, ValueV)>::empty()) =~= outv);
                assert(p.deep_view() =~= seq![path@]);
                assert(from_raw(path@, rv) is Some);
                assert(r@ =~= from_raw(path@, rv)->0);
            }
            Ok(r)
        },
        RawValue::Other => Err(ConfigError::TypeMismatch {
            expected: "string, array or table".to_owned(),
            found: "other value".to_owned(),
            key: String::new(),
        }),
    }
}

} // verus!
