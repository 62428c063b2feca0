//! The typed configuration value tree and its merge operation.
//!
//! A value is a scalar string, a list of strings, or a string-keyed table of
//! further values. Every value carries provenance: the fragment paths that
//! contributed to it, kept for diagnostics only.
use vstd::prelude::*;
use vstd::string::*;

use crate::ConfigError;

verus! {

/// Mathematical model of one tagged configuration value, without provenance.
/// A table is modelled as a sequence of key/value pairs with distinct keys;
/// the sequence order is the insertion order, which resolution never reads
/// (tables are addressed by key only).
#[verifier::ext_equal]
pub enum NodeV {
    Str(Seq<char>),
    List(Seq<Seq<char>>),
    Table(Seq<(Seq<char>, ValueV)>),
}

/// Mathematical model of a value together with its provenance paths.
#[verifier::ext_equal]
pub struct ValueV {
    pub value: NodeV,
    pub path: Seq<Seq<char>>,
}

/// One tagged configuration value: a scalar string, a list of strings, or a
/// table of nested values keyed by unique strings.
pub enum ConfigValueValue {
    Str(String),
    List(Vec<String>),
    Table(Vec<(String, ConfigValue)>),
}

/// A configuration value plus the fragment paths it came from.
pub struct ConfigValue {
    pub value: ConfigValueValue,
    pub path: Vec<String>,
}

/// Model of the first `n` table entries, in order.
pub open spec fn entries_view(es: Seq<(String, ConfigValue)>, n: int) -> Seq<(Seq<char>, ValueV)>
    decreases es, n,
{
    if n <= 0 || es.len() < n {
        Seq::empty()
    } else {
        entries_view(es, n - 1).push((es[n - 1].0@, value_view(es[n - 1].1)))
    }
}

pub open spec fn node_view(v: ConfigValueValue) -> NodeV
    decreases v, 0int,
{
    match v {
        ConfigValueValue::Str(s) => NodeV::Str(s@),
        ConfigValueValue::List(l) => NodeV::List(l.deep_view()),
        ConfigValueValue::Table(es) => NodeV::Table(entries_view(es@, es@.len() as int)),
    }
}

pub open spec fn value_view(v: ConfigValue) -> ValueV
    decreases v, 1int,
{
    ValueV { value: node_view(v.value), path: v.path.deep_view() }
}

impl View for ConfigValueValue {
    type V = NodeV;

    open spec fn view(&self) -> NodeV {
        node_view(*self)
    }
}

impl View for ConfigValue {
    type V = ValueV;

    open spec fn view(&self) -> ValueV {
        value_view(*self)
    }
}

pub proof fn lemma_entries_view(es: Seq<(String, ConfigValue)>, n: int)
    requires
        0 <= n <= es.len(),
    ensures
        entries_view(es, n).len() == n,
        forall|i: int|
            0 <= i < n ==> #[trigger] entries_view(es, n)[i] == (es[i].0@, value_view(es[i].1)),
    decreases n,
{
    if n > 0 {
        lemma_entries_view(es, n - 1);
    }
}

/// The empty mapping: the aggregate resolver's starting accumulator.
pub open spec fn empty_mapping() -> ValueV {
    ValueV { value: NodeV::Table(Seq::empty()), path: Seq::empty() }
}

/// Index of the first entry with key `k`, or `es.len()` if no entry has it.
pub open spec fn table_idx(es: Seq<(Seq<char>, ValueV)>, k: Seq<char>) -> int
    decreases es.len(),
{
    if es.len() == 0 {
        0
    } else if es[0].0 == k {
        0
    } else {
        1 + table_idx(es.drop_first(), k)
    }
}

/// Key-addressed access into a modelled table.
pub open spec fn table_get(es: Seq<(Seq<char>, ValueV)>, k: Seq<char>) -> Option<ValueV> {
    if table_idx(es, k) < es.len() {
        Some(es[table_idx(es, k)].1)
    } else {
        None
    }
}

pub proof fn lemma_table_idx(es: Seq<(Seq<char>, ValueV)>, k: Seq<char>)
    ensures
        0 <= table_idx(es, k) <= es.len(),
        table_idx(es, k) < es.len() ==> es[table_idx(es, k)].0 == k,
        forall|i: int| 0 <= i < table_idx(es, k) ==> (#[trigger] es[i]).0 != k,
    decreases es.len(),
{
    if es.len() > 0 && es[0].0 != k {
        lemma_table_idx(es.drop_first(), k);
        assert forall|i: int| 0 <= i < table_idx(es, k) implies (#[trigger] es[i]).0 != k by {
            if i > 0 {
                assert(es.drop_first()[i - 1] == es[i]);
            }
        }
        if table_idx(es, k) < es.len() {
            assert(es.drop_first()[table_idx(es, k) - 1] == es[table_idx(es, k)]);
        }
    }
}

/// Well-formedness: every table in the tree has pairwise distinct keys.
pub open spec fn node_wf(n: NodeV) -> bool
    decreases n,
{
    match n {
        NodeV::Str(_) => true,
        NodeV::List(_) => true,
        NodeV::Table(es) => {
            &&& forall|i: int, j: int|
                0 <= i < j < es.len() ==> (#[trigger] es[i]).0 != (#[trigger] es[j]).0
            &&& forall|i: int| 0 <= i < es.len() ==> node_wf((#[trigger] es[i]).1.value)
        },
    }
}

pub open spec fn value_wf(v: ValueV) -> bool {
    node_wf(v.value)
}

/// The merge algorithm on models. `None` is a kind conflict.
///
/// Policy (stated deliberately, covered by the property proofs and tests):
/// scalar against scalar adopts the incoming scalar and its provenance, so in
/// an ordered fold the last layer processed wins scalar ties; list against
/// list appends the incoming elements after the accumulated ones; table
/// against table is a key-wise union with recursive merging of shared keys.
pub open spec fn merge_value(a: ValueV, b: ValueV) -> Option<ValueV>
    decreases b, 1int,
{
    match (a.value, b.value) {
        (NodeV::Str(_), NodeV::Str(t)) => Some(ValueV { value: NodeV::Str(t), path: b.path }),
        (NodeV::List(x), NodeV::List(y)) => Some(
            ValueV { value: NodeV::List(x + y), path: a.path + b.path },
        ),
        (NodeV::Table(x), NodeV::Table(y)) => match merge_entries(x, y, 0) {
            Some(t) => Some(ValueV { value: NodeV::Table(t), path: a.path + b.path }),
            None => None,
        },
        _ => None,
    }
}

/// Fold the incoming entries `y[i..]` into the accumulated entries `x`,
/// in order: a fresh key is appended, a shared key is merged recursively.
pub open spec fn merge_entries(
    x: Seq<(Seq<char>, ValueV)>,
    y: Seq<(Seq<char>, ValueV)>,
    i: int,
) -> Option<Seq<(Seq<char>, ValueV)>>
    decreases y, y.len() - i,
{
    if i < 0 || y.len() <= i {
        Some(x)
    } else {
        let k = y[i].0;
        let j = table_idx(x, k);
        if j < x.len() {
            match merge_value(x[j].1, y[i].1) {
                Some(m) => merge_entries(x.update(j, (k, m)), y, i + 1),
                None => None,
            }
        } else {
            merge_entries(x.push(y[i]), y, i + 1)
        }
    }
}

/// The short name of a kind, as the merge algorithm's kind-conflict
/// diagnostics use it.
pub open spec fn kind_desc(n: NodeV) -> Seq<char> {
    match n {
        NodeV::Str(_) => "string"@,
        NodeV::List(_) => "array"@,
        NodeV::Table(_) => "table"@,
    }
}

/// The name of a kind in the typed accessors' vocabulary, which speaks of a
/// "list" where the merge diagnostics say "array".
pub open spec fn accessor_kind(n: NodeV) -> Seq<char> {
    match n {
        NodeV::Str(_) => "string"@,
        NodeV::List(_) => "list"@,
        NodeV::Table(_) => "table"@,
    }
}

/// A key joined onto a (possibly empty) deeper key path with a dot.
pub open spec fn joined_key(k: Seq<char>, rest: Seq<char>) -> Seq<char> {
    if rest.len() == 0 {
        k
    } else {
        k + "."@ + rest
    }
}

/// What a failed merge reports: the expected and the found kind name, and
/// the dotted key path to the conflict (empty for a conflict at the root).
pub open spec fn merge_conflict(a: ValueV, b: ValueV) -> (Seq<char>, Seq<char>, Seq<char>)
    decreases b, 1int,
{
    match (a.value, b.value) {
        (NodeV::Table(x), NodeV::Table(y)) => conflict_entries(x, y, 0),
        _ => (kind_desc(a.value), kind_desc(b.value), Seq::empty()),
    }
}

/// The conflict the entries fold reports: that of the first incoming entry
/// whose merge fails, under that entry's key.
pub open spec fn conflict_entries(
    x: Seq<(Seq<char>, ValueV)>,
    y: Seq<(Seq<char>, ValueV)>,
    i: int,
) -> (Seq<char>, Seq<char>, Seq<char>)
    decreases y, y.len() - i,
{
    if i < 0 || y.len() <= i {
        (Seq::empty(), Seq::empty(), Seq::empty())
    } else {
        let k = y[i].0;
        let j = table_idx(x, k);
        if j < x.len() {
            match merge_value(x[j].1, y[i].1) {
                Some(m) => conflict_entries(x.update(j, (k, m)), y, i + 1),
                None => {
                    let c = merge_conflict(x[j].1, y[i].1);
                    (c.0, c.1, joined_key(k, c.2))
                },
            }
        } else {
            conflict_entries(x.push(y[i]), y, i + 1)
        }
    }
}

/// Merging preserves well-formedness: whenever two well-formed values merge,
/// every table in the result again has pairwise distinct keys.
pub proof fn lemma_merge_wf(a: ValueV, b: ValueV)
    requires
        node_wf(a.value),
        node_wf(b.value),
        merge_value(a, b) is Some,
    ensures
        node_wf(merge_value(a, b)->0.value),
    decreases b, 1int,
{
    if a.value is Table && b.value is Table {
        lemma_merge_entries_wf(a.value->Table_0, b.value->Table_0, 0);
    }
}

proof fn lemma_merge_entries_wf(x: Seq<(Seq<char>, ValueV)>, y: Seq<(Seq<char>, ValueV)>, i: int)
    requires
        0 <= i,
        forall|s: int, t: int| 0 <= s < t < x.len() ==> (#[trigger] x[s]).0 != (#[trigger] x[t]).0,
        forall|t: int| 0 <= t < x.len() ==> node_wf((#[trigger] x[t]).1.value),
        forall|t: int| 0 <= t < y.len() ==> node_wf((#[trigger] y[t]).1.value),
        merge_entries(x, y, i) is Some,
    ensures
        forall|s: int, t: int|
            0 <= s < t < merge_entries(x, y, i)->0.len() ==> (#[trigger] merge_entries(
                x,
                y,
                i,
            )->0[s]).0 != (#[trigger] merge_entries(x, y, i)->0[t]).0,
        forall|t: int|
            0 <= t < merge_entries(x, y, i)->0.len() ==> node_wf(
                (#[trigger] merge_entries(x, y, i)->0[t]).1.value,
            ),
    decreases y, y.len() - i,
{
    if 0 <= i < y.len() {
        let k = y[i].0;
        let j = table_idx(x, k);
        lemma_table_idx(x, k);
        if j < x.len() {
            lemma_merge_wf(x[j].1, y[i].1);
            let m = merge_value(x[j].1, y[i].1)->0;
            lemma_merge_entries_wf(x.update(j, (k, m)), y, i + 1);
        } else {
            lemma_merge_entries_wf(x.push(y[i]), y, i + 1);
        }
    }
}

impl ConfigValueValue {
    /// Short name of this value's kind, used in kind-conflict diagnostics.
    pub fn desc(&self) -> (r: &'static str)
        ensures
            *self is Table ==> r@ == "table"@,
            *self is List ==> r@ == "array"@,
            *self is Str ==> r@ == "string"@,
    {
        match self {
            ConfigValueValue::Table(_) => "table",
            ConfigValueValue::List(_) => "array",
            ConfigValueValue::Str(_) => "string",
        }
    }

    /// This value's kind in the typed accessors' vocabulary.
    fn accessor_desc(&self) -> (r: &'static str)
        ensures
            r@ == accessor_kind((*self)@),
    {
        match self {
            ConfigValueValue::Table(_) => "table",
            ConfigValueValue::List(_) => "list",
            ConfigValueValue::Str(_) => "string",
        }
    }
}

impl ConfigValue {
    /// The empty value: an empty list with empty provenance.
    pub fn new() -> (r: ConfigValue)
        ensures
            r@ == (ValueV { value: NodeV::List(Seq::empty()), path: Seq::empty() }),
    {
        let r = ConfigValue { value: ConfigValueValue::List(Vec::new()), path: Vec::new() };
        proof {
            assert(r@.value->List_0 =~= Seq::<Seq<char>>::empty());
            assert(r@.path =~= Seq::<Seq<char>>::empty());
            assert(r@ =~= ValueV { value: NodeV::List(Seq::empty()), path: Seq::empty() });
        }
        r
    }

    pub fn get_value(&self) -> (r: &ConfigValueValue)
        ensures
            r@ == self@.value,
    {
        &self.value
    }

    /// The scalar text, or a kind-conflict error for a list or table.
    pub fn string(&self) -> (r: Result<&str, ConfigError>)
        ensures
            r is Ok <==> self@.value is Str,
            r is Ok ==> r->Ok_0@ == self@.value->Str_0,
            r is Err ==> (r->Err_0 matches ConfigError::TypeMismatch { expected, found, key }
                && expected@ == "string"@ && found@ == accessor_kind(self@.value) && key@
                == Seq::<char>::empty()),
    {
        match &self.value {
            ConfigValueValue::Str(s) => Ok(s.as_str()),
            other => Err(ConfigError::TypeMismatch {
                expected: "string".to_owned(),
                found: other.accessor_desc().to_owned(),
                key: String::new(),
            }),
        }
    }

    /// The table entries, or a kind-conflict error for a scalar or list.
    pub fn table(&self) -> (r: Result<&Vec<(String, ConfigValue)>, ConfigError>)
        ensures
            r is Ok <==> self@.value is Table,
            r is Ok ==> entries_view(r->Ok_0@, r->Ok_0@.len() as int) == self@.value->Table_0,
            r is Err ==> (r->Err_0 matches ConfigError::TypeMismatch { expected, found, key }
                && expected@ == "table"@ && found@ == accessor_kind(self@.value) && key@
                == Seq::<char>::empty()),
    {
        match &self.value {
            ConfigValueValue::Table(es) => Ok(es),
            other => Err(ConfigError::TypeMismatch {
                expected: "table".to_owned(),
                found: other.accessor_desc().to_owned(),
                key: String::new(),
            }),
        }
    }

    /// The list elements, or a kind-conflict error for a scalar or table.
    pub fn list(&self) -> (r: Result<&Vec<String>, ConfigError>)
        ensures
            r is Ok <==> self@.value is List,
            r is Ok ==> r->Ok_0.deep_view() == self@.value->List_0,
            r is Err ==> (r->Err_0 matches ConfigError::TypeMismatch { expected, found, key }
                && expected@ == "list"@ && found@ == accessor_kind(self@.value) && key@
                == Seq::<char>::empty()),
    {
        match &self.value {
            ConfigValueValue::List(l) => Ok(l),
            other => Err(ConfigError::TypeMismatch {
                expected: "list".to_owned(),
                found: other.accessor_desc().to_owned(),
                key: String::new(),
            }),
        }
    }
}

impl ConfigValue {
    /// Merge `from` into `self` in place. An `Err` is a kind conflict, raised
    /// exactly when the model-level merge is undefined; it names the two
    /// kinds and the dotted key path to the conflict. A conflict at the root
    /// leaves `self` untouched; one nested in a table merge leaves `self`
    /// holding the empty value, and aggregation then discards it.
    pub fn merge(&mut self, from: ConfigValue) -> (r: Result<(), ConfigError>)
        ensures
            r is Ok <==> merge_value(old(self)@, from@) is Some,
            r is Ok ==> final(self)@ == merge_value(old(self)@, from@)->Some_0,
            r is Err ==> (r->Err_0 matches ConfigError::TypeMismatch { expected, found, key }
                && expected@ == merge_conflict(old(self)@, from@).0 && found@ == merge_conflict(
                old(self)@,
                from@,
            ).1 && key@ == merge_conflict(old(self)@, from@).2),
            r is Err && !(old(self)@.value is Table && from@.value is Table) ==> *final(self)
                == *old(self),
            r is Err && old(self)@.value is Table && from@.value is Table ==> final(self)@
                == (ValueV { value: NodeV::List(Seq::empty()), path: Seq::empty() }),
    {
        let kinds_align = match (&self.value, &from.value) {
            (ConfigValueValue::Str(_), ConfigValueValue::Str(_)) => true,
            (ConfigValueValue::List(_), ConfigValueValue::List(_)) => true,
            (ConfigValueValue::Table(_), ConfigValueValue::Table(_)) => true,
            _ => false,
        };
        if !kinds_align {
            return Err(ConfigError::TypeMismatch {
                expected: self.value.desc().to_owned(),
                found: from.value.desc().to_owned(),
                key: String::new(),
            });
        }
        let mut a = ConfigValue::new();
        core::mem::swap(&mut a, self);
        match merge_nodes(a, from) {
            Ok(v) => {
                *self = v;
                Ok(())
            },
            Err(e) => Err(e),
        }
    }
}

/// Prepend the table key under which a kind conflict was found, so that the
/// surfaced error names the full key path to the conflict; any other error
/// passes through unchanged.
pub(crate) fn prefix_key(e: ConfigError, k: String) -> (r: ConfigError)
    ensures
        r is TypeMismatch <==> e is TypeMismatch,
        !(e is TypeMismatch) ==> r == e,
        e matches ConfigError::TypeMismatch { expected: e1, found: f1, key: k1 } ==> (
        r matches ConfigError::TypeMismatch { expected: e2, found: f2, key: k2 } && e2@ == e1@
            && f2@ == f1@ && k2@ == joined_key(k@, k1@)),
{
    match e {
        ConfigError::TypeMismatch { expected, found, key } => {
            let key = if key.as_str().is_empty() {
                k
            } else {
                k.concat(".").concat(key.as_str())
            };
            ConfigError::TypeMismatch { expected, found, key }
        },
        other => other,
    }
}

/// Position of the first entry of `es` whose key is `k`, or `es.len()`.
#[verifier::loop_isolation(false)]
fn find_key(es: &Vec<(String, ConfigValue)>, k: &String) -> (j: usize)
    ensures
        j == table_idx(entries_view(es@, es@.len() as int), k@),
{
    proof {
        lemma_entries_view(es@, es@.len() as int);
    }
    let ghost ev = entries_view(es@, es@.len() as int);
    let mut j: usize = 0;
    while j < es.len()
        invariant
            j <= es@.len(),
            forall|t: int| 0 <= t < j ==> (#[trigger] ev[t]).0 != k@,
        decreases es@.len() - j,
    {
        if es[j].0 == *k {
            proof {
                lemma_table_idx_first(ev, k@, j as int);
            }
            return j;
        }
        j += 1;
    }
    proof {
        lemma_table_idx_first(ev, k@, j as int);
    }
    j
}

/// `table_idx` is the unique position that has no hit before it and a hit
/// (or the end) at it.
pub proof fn lemma_table_idx_first(es: Seq<(Seq<char>, ValueV)>, k: Seq<char>, j: int)
    requires
        0 <= j <= es.len(),
        forall|t: int| 0 <= t < j ==> (#[trigger] es[t]).0 != k,
        j < es.len() ==> es[j].0 == k,
    ensures
        table_idx(es, k) == j,
    decreases es.len(),
{
    if es.len() > 0 && es[0].0 != k {
        assert(j >= 1);
        lemma_table_idx_first(es.drop_first(), k, j - 1);
        assert forall|t: int| 0 <= t < j - 1 implies (#[trigger] es.drop_first()[t]).0 != k by {
            assert(es.drop_first()[t] == es[t + 1]);
        }
        if j - 1 < es.drop_first().len() {
            assert(es.drop_first()[j - 1] == es[j]);
        }
    }
}

/// Merge `b` into `a`: the last-merged scalar wins, lists concatenate, and
/// tables take a key-wise union, merging shared keys recursively. `Err` is
/// a kind conflict, exactly when the model-level merge is undefined.
#[verifier::loop_isolation(false)]
pub fn merge_nodes(a: ConfigValue, b: ConfigValue) -> (r: Result<ConfigValue, ConfigError>)
    ensures
        r is Ok <==> merge_value(a@, b@) is Some,
        r is Ok ==> r->Ok_0@ == merge_value(a@, b@)->Some_0,
        r is Err ==> (r->Err_0 matches ConfigError::TypeMismatch { expected, found, key }
            && expected@ == merge_conflict(a@, b@).0 && found@ == merge_conflict(a@, b@).1
            && key@ == merge_conflict(a@, b@).2),
    decreases b@,
{
    let ghost av = a@;
    let ghost bv = b@;
    let ConfigValue { value: a_val, path: a_path } = a;
    let ConfigValue { value: b_val, path: b_path } = b;
    match (a_val, b_val) {
        (ConfigValueValue::Str(_), ConfigValueValue::Str(t)) => {
            let r = ConfigValue { value: ConfigValueValue::Str(t), path: b_path };
            proof {
                assert(r@ =~= merge_value(av, bv)->Some_0);
            }
            Ok(r)
        },
        (ConfigValueValue::List(x), ConfigValueValue::List(y)) => {
            let mut x = x;
            let mut y = y;
            let ghost xs = x.deep_view();
            let ghost ys = y.deep_view();
            x.append(&mut y);
            let mut p = a_path;
            let mut q = b_path;
            let ghost ps = p.deep_view();
            let ghost qs = q.deep_view();
            p.append(&mut q);
            let r = ConfigValue { value: ConfigValueValue::List(x), path: p };
            proof {
                assert(x.deep_view() =~= xs + ys);
                assert(p.deep_view() =~= ps + qs);
                assert(r@ =~= merge_value(av, bv)->Some_0);
            }
            Ok(r)
        },
        (ConfigValueValue::Table(x), ConfigValueValue::Table(y)) => {
            let mut x = x;
            let mut y = y;
            let ghost x0v = entries_view(x@, x@.len() as int);
            let ghost y0v = entries_view(y@, y@.len() as int);
            let ghost yseq = y@;
            let n0 = y.len();
            proof {
                lemma_entries_view(yseq, yseq.len() as int);
                assert(bv.value == NodeV::Table(y0v));
            }
            let mut i: usize = 0;
            while y.len() > 0
                invariant
                    yseq.len() == n0,
                    i + y@.len() == yseq.len(),
                    y@ == yseq.subrange(i as int, yseq.len() as int),
                    merge_entries(x0v, y0v, 0) == merge_entries(
                        entries_view(x@, x@.len() as int),
                        y0v,
                        i as int,
                    ),
                    conflict_entries(x0v, y0v, 0) == conflict_entries(
                        entries_view(x@, x@.len() as int),
                        y0v,
                        i as int,
                    ),
                decreases y@.len(),
            {
                let ghost xcur = entries_view(x@, x@.len() as int);
                proof {
                    lemma_entries_view(x@, x@.len() as int);
                    lemma_table_idx(xcur, yseq[i as int].0@);
                }
                let (k, v) = y.remove(0);
                proof {
                    assert((k, v) == yseq[i as int]);
                    assert(y@ =~= yseq.subrange(i + 1 as int, yseq.len() as int));
                    assert(y0v[i as int] == (k@, v@));
                }
                let j = find_key(&x, &k);
                let ghost xseq = x@;
                if j < x.len() {
                    let (k0, xv) = x.remove(j);
                    proof {
                        assert(xv@ == xcur[j as int].1);
                        assert(v@ == y0v[i as int].1);
                        assert(decreases_to!(y0v => y0v[i as int]));
                        assert(decreases_to!(bv => v@));
                    }
                    let merged = match merge_nodes(xv, v) {
                        Ok(m) => m,
                        Err(e) => {
                            return Err(prefix_key(e, k));
                        },
                    };
                    x.insert(j, (k0, merged));
                    proof {
                        assert(x@ =~= xseq.update(j as int, (k0, merged)));
                        lemma_entries_view(x@, x@.len() as int);
                        assert(entries_view(x@, x@.len() as int) =~= xcur.update(
                            j as int,
                            (k@, merged@),
                        ));
                    }
                } else {
                    x.push((k, v));
                    proof {
                        lemma_entries_view(x@, x@.len() as int);
                        assert(entries_view(x@, x@.len() as int) =~= xcur.push((k@, v@)));
                    }
                }
                i += 1;
            }
            let ghost xfv = entries_view(x@, x@.len() as int);
            proof {
                assert(merge_entries(xfv, y0v, i as int) == Some(xfv));
            }
            let mut p = a_path;
            let mut q = b_path;
            let ghost ps = p.deep_view();
            let ghost qs = q.deep_view();
            p.append(&mut q);
            let r = ConfigValue { value: ConfigValueValue::Table(x), path: p };
            proof {
                assert(p.deep_view() =~= ps + qs);
                assert(r@ =~= merge_value(av, bv)->Some_0);
            }
            Ok(r)
        },
        (a_other, b_other) => Err(ConfigError::TypeMismatch {
            expected: a_other.desc().to_owned(),
            found: b_other.desc().to_owned(),
            key: String::new(),
        }),
    }
}

} // verus!
