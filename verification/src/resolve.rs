//! The two resolution policies over a discovered chain of fragments.
//!
//! Callers discover fragments along the ancestor chain (nearest first), read
//! each file, and hand the chain here as path/contents pairs. Point lookup
//! returns the nearest fragment that defines a key; aggregation folds every
//! fragment into one mapping with the merge algorithm.
use vstd::prelude::*;

use crate::parse::{parse_fragment, parsed_toml};
use crate::raw::{conv_conflict, from_raw, raw_find_key, raw_table_get, RawV, RawValue};
use crate::value::{
    empty_mapping, entries_view, merge_conflict, merge_value, value_wf, ConfigValue,
    ConfigValueValue, ValueV,
};
use crate::ConfigError;

verus! {

/// One discovered fragment: the file's path and its full contents,
/// nearest-first in the chain handed to the resolvers.
pub struct Fragment {
    pub path: String,
    pub contents: String,
}

impl View for Fragment {
    type V = (Seq<char>, Seq<char>);

    open spec fn view(&self) -> (Seq<char>, Seq<char>) {
        (self.path@, self.contents@)
    }
}

impl DeepView for Fragment {
    type V = (Seq<char>, Seq<char>);

    open spec fn deep_view(&self) -> (Seq<char>, Seq<char>) {
        self.view()
    }
}

/// What one fragment contributes to a point lookup: the converted value of
/// the top-level entry named `key`, or `None` when the fragment is
/// malformed, lacks the key, or holds a rejected kind there.
pub open spec fn lookup_step(path: Seq<char>, contents: Seq<char>, key: Seq<char>) -> Option<
    ValueV,
> {
    match parsed_toml(contents) {
        Some(doc) => match raw_table_get(doc, key) {
            Some(rv) => from_raw(path, rv),
            None => None,
        },
        None => None,
    }
}

/// Nearest-wins point lookup over the chain: the first fragment whose step
/// succeeds decides; every failure is skipped silently.
pub open spec fn lookup_frags(frags: Seq<(Seq<char>, Seq<char>)>, key: Seq<char>) -> Option<
    ValueV,
>
    decreases frags.len(),
{
    if frags.len() == 0 {
        None
    } else {
        match lookup_step(frags[0].0, frags[0].1, key) {
            Some(v) => Some(v),
            None => lookup_frags(frags.drop_first(), key),
        }
    }
}

/// The aggregate fold from fragment `i` on: parse, convert and merge each
/// fragment in order into `acc`; the first failure aborts the whole fold.
pub open spec fn agg_frags(frags: Seq<(Seq<char>, Seq<char>)>, i: int, acc: ValueV) -> Option<
    ValueV,
>
    decreases frags.len() - i,
{
    if i < 0 || frags.len() <= i {
        Some(acc)
    } else {
        match parsed_toml(frags[i].1) {
            None => None,
            Some(doc) => match from_raw(frags[i].0, RawV::Table(doc)) {
                None => None,
                Some(v) => match merge_value(acc, v) {
                    None => None,
                    Some(acc2) => agg_frags(frags, i + 1, acc2),
                },
            },
        }
    }
}

/// The failure that the aggregate fold from fragment `i` on reports: the
/// nearest failing fragment decides — a malformed fragment as a parse
/// failure naming its path, a rejected kind or a kind conflict as a
/// kind-conflict report. Meaningful only when the fold fails.
pub enum AggErrV {
    Parse(Seq<char>),
    Kind((Seq<char>, Seq<char>, Seq<char>)),
}

pub open spec fn agg_err(frags: Seq<(Seq<char>, Seq<char>)>, i: int, acc: ValueV) -> AggErrV
    decreases frags.len() - i,
{
    if i < 0 || frags.len() <= i {
        AggErrV::Parse(Seq::empty())
    } else {
        match parsed_toml(frags[i].1) {
            None => AggErrV::Parse(frags[i].0),
            Some(doc) => match from_raw(frags[i].0, RawV::Table(doc)) {
                None => AggErrV::Kind(conv_conflict(frags[i].0, RawV::Table(doc))),
                Some(v) => match merge_value(acc, v) {
                    None => AggErrV::Kind(merge_conflict(acc, v)),
                    Some(acc2) => agg_err(frags, i + 1, acc2),
                },
            },
        }
    }
}

/// Point lookup: the value of the top-level entry named `key` in the
/// nearest fragment that defines it, or `NotFound` when no fragment does.
/// Malformed fragments and fragments without the key are skipped silently.
#[verifier::loop_isolation(false)]
pub fn get_config(fragments: &Vec<Fragment>, key: &str) -> (r: Result<ConfigValue, ConfigError>)
    ensures
        r is Ok <==> lookup_frags(fragments.deep_view(), key@) is Some,
        r is Ok ==> r->Ok_0@ == lookup_frags(fragments.deep_view(), key@)->0,
        r is Ok ==> value_wf(r->Ok_0@),
        r is Err ==> (r->Err_0 matches ConfigError::NotFound { key: k } && k@ == key@),
{
    let ghost fv = fragments.deep_view();
    proof {
        assert(fv.subrange(0, fv.len() as int) =~= fv);
    }
    let key_owned = key.to_owned();
    let mut i: usize = 0;
    while i < fragments.len()
        invariant
            i <= fv.len(),
            fv.len() == fragments@.len(),
            lookup_frags(fv, key@) == lookup_frags(
                fv.subrange(i as int, fv.len() as int),
                key@,
            ),
        decreases fv.len() - i,
    {
        let f = &fragments[i];
        let ghost tail = fv.subrange(i as int, fv.len() as int);
        proof {
            assert(tail[0] == fv[i as int]);
            assert(tail.drop_first() =~= fv.subrange(i + 1 as int, fv.len() as int));
        }
        match parse_fragment(f.contents.as_str()) {
            Err(_) => {
                proof {
                    assert(lookup_step(fv[i as int].0, fv[i as int].1, key@) is None);
                }
            },
            Ok(mut entries) => {
                let ghost doc = parsed_toml(fv[i as int].1)->0;
                let j = raw_find_key(&entries, &key_owned);
                if j < entries.len() {
                    let ghost entq = entries@;
                    proof {
                        crate::raw::lemma_raw_entries_view(entq, entq.len() as int);
                    }
                    let (_found_key, rv) = entries.remove(j);
                    proof {
                        assert(rv == entq[j as int].1);
                        assert(rv@ == doc[j as int].1);
                        assert(raw_table_get(doc, key@) == Some(rv@));
                    }
                    match crate::raw::from_toml(f.path.as_str(), rv) {
                        Ok(cv) => {
                            proof {
                                assert(lookup_step(fv[i as int].0, fv[i as int].1, key@)
                                    == Some(cv@));
                                crate::raw::lemma_raw_table_wf_child(doc, j as int);
                                crate::raw::lemma_from_raw_wf(fv[i as int].0, rv@);
                            }
                            return Ok(cv);
                        },
                        Err(_) => {
                            proof {
                                assert(lookup_step(fv[i as int].0, fv[i as int].1, key@) is None);
                            }
                        },
                    }
                } else {
                    proof {
                        crate::raw::lemma_raw_entries_view(entries@, entries@.len() as int);
                        assert(raw_table_get(doc, key@) is None);
                        assert(lookup_step(fv[i as int].0, fv[i as int].1, key@) is None);
                    }
                }
            },
        }
        i += 1;
    }
    proof {
        assert(fv.subrange(i as int, fv.len() as int) =~= Seq::<(Seq<char>, Seq<char>)>::empty());
    }
    Err(ConfigError::NotFound { key: key_owned })
}

/// Aggregation: fold every fragment of the chain, nearest first, into one
/// mapping with the merge algorithm. The first malformed or rejected
/// fragment, or the first kind conflict, aborts the whole call; no partial
/// result is returned.
#[verifier::loop_isolation(false)]
pub fn all_configs(fragments: &Vec<Fragment>) -> (r: Result<
    Vec<(String, ConfigValue)>,
    ConfigError,
>)
    ensures
        r is Ok <==> agg_frags(fragments.deep_view(), 0, empty_mapping()) is Some,
        r is Ok ==> entries_view(r->Ok_0@, r->Ok_0@.len() as int) == agg_frags(
            fragments.deep_view(),
            0,
            empty_mapping(),
        )->0.value->Table_0,
        r is Ok ==> value_wf(agg_frags(fragments.deep_view(), 0, empty_mapping())->0),
        r is Err ==> agg_frags(fragments.deep_view(), 0, empty_mapping()) is None,
        r is Err ==> (r->Err_0 is ParseError || r->Err_0 is TypeMismatch),
        r is Err ==> (r->Err_0 is ParseError <==> agg_err(
            fragments.deep_view(),
            0,
            empty_mapping(),
        ) is Parse),
        r is Err ==> (r->Err_0 matches ConfigError::ParseError { path, cause: _c } ==> path@
            == agg_err(fragments.deep_view(), 0, empty_mapping())->Parse_0),
        r is Err ==> (r->Err_0 matches ConfigError::TypeMismatch { expected, found, key } ==> (
        expected@ == agg_err(fragments.deep_view(), 0, empty_mapping())->Kind_0.0 && found@
            == agg_err(fragments.deep_view(), 0, empty_mapping())->Kind_0.1 && key@ == agg_err(
            fragments.deep_view(),
            0,
            empty_mapping(),
        )->Kind_0.2)),
{
    let ghost fv = fragments.deep_view();
    let mut cfg = ConfigValue { value: ConfigValueValue::Table(Vec::new()), path: Vec::new() };
    proof {
        assert(entries_view(Seq::<(String, ConfigValue)>::empty(), 0) =~= Seq::<
            (Seq<char>, ValueV),
        >::empty());
        assert(cfg@.path =~= Seq::<Seq<char>>::empty());
        assert(cfg@ =~= empty_mapping());
    }
    let mut i: usize = 0;
    while i < fragments.len()
        invariant
            i <= fv.len(),
            fv.len() == fragments@.len(),
            cfg@.value is Table,
            value_wf(cfg@),
            agg_frags(fv, 0, empty_mapping()) == agg_frags(fv, i as int, cfg@),
            agg_err(fv, 0, empty_mapping()) == agg_err(fv, i as int, cfg@),
        decreases fv.len() - i,
    {
        let f = &fragments[i];
        match parse_fragment(f.contents.as_str()) {
            Err(cause) => {
                proof {
                    assert(parsed_toml(fv[i as int].1) is None);
                    assert(agg_frags(fv, i as int, cfg@) is None);
                    assert(agg_err(fv, i as int, cfg@) == AggErrV::Parse(fv[i as int].0));
                }
                return Err(ConfigError::ParseError { path: f.path.clone(), cause });
            },
            Ok(entries) => {
                let ghost doc = parsed_toml(fv[i as int].1)->0;
                let raw = RawValue::Table(entries);
                proof {
                    assert(raw@ == RawV::Table(doc));
                }
                match crate::raw::from_toml(f.path.as_str(), raw) {
                    Err(e) => {
                        proof {
                            assert(agg_frags(fv, i as int, cfg@) is None);
                            assert(agg_err(fv, i as int, cfg@) == AggErrV::Kind(
                                conv_conflict(fv[i as int].0, RawV::Table(doc)),
                            ));
                        }
                        return Err(e);
                    },
                    Ok(cv) => {
                        proof {
                            crate::raw::lemma_from_raw_wf(fv[i as int].0, RawV::Table(doc));
                        }
                        let ghost accv = cfg@;
                        match cfg.merge(cv) {
                            Err(e) => {
                                proof {
                                    assert(agg_frags(fv, i as int, accv) is None);
                                    assert(agg_err(fv, i as int, accv) == AggErrV::Kind(
                                        merge_conflict(accv, cv@),
                                    ));
                                }
                                return Err(e);
                            },
                            Ok(()) => {
                                proof {
                                    crate::value::lemma_merge_wf(accv, cv@);
                                    assert(agg_frags(fv, i as int, accv) == agg_frags(
                                        fv,
                                        i + 1 as int,
                                        cfg@,
                                    ));
                                    assert(agg_err(fv, i as int, accv) == agg_err(
                                        fv,
                                        i + 1 as int,
                                        cfg@,
                                    ));
                                }
                            },
                        }
                    },
                }
            },
        }
        i += 1;
    }
    proof {
        assert(agg_frags(fv, i as int, cfg@) == Some(cfg@));
    }
    match cfg.value {
        ConfigValueValue::Table(m) => Ok(m),
        _ => {
            proof {
                assert(false);
            }
            Err(ConfigError::NotFound { key: String::new() })
        },
    }
}

} // verus!
