//! What holds of every tree that the textual decoder makes.

use vstd::prelude::*;
use crate::errors::ParseError;
use crate::geo_format::{
    text_array, text_decoding, text_element, text_entries, text_members, text_object, trimmed,
    Readings, TextOutcome,
};
use crate::geo_struct::{
    keys_unique, lemma_insert_keeps_unique, object_insert, well_formed, Real64, Value,
};

verus! {

/// Whether what a decode made, if it made a value, is a tree in which no
/// object has a key twice.
pub open spec fn made_well(o: TextOutcome) -> bool {
    match o.result {
        Ok(v) => well_formed(v.0),
        Err(_) => true,
    }
}

/// The decoder makes trees in which no object has a key twice.
pub proof fn lemma_text_well_formed(s: Seq<u8>, readings: Readings, found: Seq<Seq<u8>>)
    ensures
        made_well(text_element(s, readings, found)),
    decreases s.len(), 0nat,
{
    let t = trimmed(s);
    if t.len() > 0 && t.len() <= s.len() {
        if t[0] == 0x5b {
            lemma_array_well_formed(t.skip(1), readings, found);
        } else if t[0] == 0x7b {
            lemma_object_well_formed(t.skip(1), readings, found);
        }
    }
}

proof fn lemma_array_well_formed(s: Seq<u8>, readings: Readings, found: Seq<Seq<u8>>)
    ensures
        made_well(text_array(s, readings, found)),
    decreases s.len(), 2nat,
{
    let t = trimmed(s);
    if t.len() > 0 && t.len() <= s.len() && t[0] != 0x5d {
        lemma_members_well_formed(t, readings, found, Seq::empty());
    }
}

proof fn lemma_members_well_formed(
    s: Seq<u8>,
    readings: Readings,
    found: Seq<Seq<u8>>,
    acc: Seq<Value>,
)
    requires
        forall|i: int| 0 <= i < acc.len() ==> well_formed(#[trigger] acc[i]),
    ensures
        made_well(text_members(s, readings, found, acc)),
    decreases s.len(), 1nat,
{
    lemma_text_well_formed(s, readings, found);
    let m = text_element(s, readings, found);
    match m.result {
        Ok((v, rest)) => {
            let t = trimmed(rest);
            if t.len() > 0 && t.len() <= s.len() && t[0] == 0x2c {
                lemma_members_well_formed(t.skip(1), readings, m.found, acc.push(v));
            }
        },
        Err(_) => {},
    }
}

proof fn lemma_object_well_formed(s: Seq<u8>, readings: Readings, found: Seq<Seq<u8>>)
    ensures
        made_well(text_object(s, readings, found)),
    decreases s.len(), 2nat,
{
    let t = trimmed(s);
    if t.len() > 0 && t.len() <= s.len() && t[0] != 0x7d {
        lemma_entries_well_formed(t, readings, found, Seq::empty());
    }
}

proof fn lemma_entries_well_formed(
    s: Seq<u8>,
    readings: Readings,
    found: Seq<Seq<u8>>,
    acc: Seq<(Seq<char>, Value)>,
)
    requires
        keys_unique(acc),
        forall|i: int| 0 <= i < acc.len() ==> well_formed((#[trigger] acc[i]).1),
    ensures
        made_well(text_entries(s, readings, found, acc)),
    decreases s.len(), 1nat,
{
    let k = text_element(s, readings, found);
    match k.result {
        Ok((key, after_key)) => {
            let t = trimmed(after_key);
            if t.len() > 0 && t.len() <= s.len() && t[0] == 0x3a {
                lemma_text_well_formed(t.skip(1), readings, k.found);
                let m = text_element(t.skip(1), readings, k.found);
                match m.result {
                    Ok((v, rest)) => match key {
                        Value::Text(name) => {
                            let u = trimmed(rest);
                            lemma_insert_keeps_unique(acc, name, v);
                            if u.len() > 0 && u.len() < t.len() && u[0] == 0x2c {
                                lemma_entries_well_formed(
                                    u.skip(1),
                                    readings,
                                    m.found,
                                    object_insert(acc, name, v),
                                );
                            }
                        },
                        _ => {},
                    },
                    Err(_) => {},
                }
            }
        },
        Err(_) => {},
    }
}

/// A text that decodes holds a tree in which no object has a key twice.
pub proof fn lemma_decoding_well_formed(s: Seq<u8>, reals: Seq<Option<Real64>>)
    ensures
        text_decoding(s, reals) is Ok ==> well_formed(text_decoding(s, reals)->Ok_0),
{
    lemma_text_well_formed(s, crate::geo_format::readings_of(reals), Seq::empty());
}

} // verus!
