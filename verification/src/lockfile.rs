use std::collections::BTreeMap;
use vstd::prelude::*;

use crate::bytesutil::{clone_bytes, eq_bytes, is_utf8, lex_lt, utf8_valid};
use crate::errors::ClampError;
use crate::table::{pairs_as_map, pairs_view, DigestTable};

verus! {

/// The data stored in the lockfile: the digest of every file the template
/// pulled in, keyed by canonical path.
#[derive(Debug)]
pub struct LockfileData {
    pub files: DigestTable,
}

/// The view of a vector of named tables as sequences.
pub open spec fn tables_view(v: Seq<(Vec<u8>, Vec<(Vec<u8>, Vec<u8>)>)>) -> Seq<
    (Seq<u8>, Seq<(Seq<u8>, Seq<u8>)>),
> {
    v.map_values(|t: (Vec<u8>, Vec<(Vec<u8>, Vec<u8>)>)| (t.0@, pairs_view(t.1@)))
}

/// The tables a TOML document denotes, named but not defined here: parsing
/// is done by an outside implementation and depends on the text alone.
/// `None` means the text is not a well-formed document of string tables.
pub uninterp spec fn toml_doc_of(s: Seq<char>) -> Option<
    Seq<(Seq<u8>, Seq<(Seq<u8>, Seq<u8>)>)>,
>;

/// The TOML encoding of a sequence of named string tables, named but not
/// defined here: encoding is done by an outside implementation and depends
/// on the tables alone.
pub uninterp spec fn toml_text_of(ts: Seq<(Seq<u8>, Seq<(Seq<u8>, Seq<u8>)>)>) -> Seq<char>;

/// Whether tables are already in the encoder's normal form: table names and
/// keys strictly ascending and every name, key and value valid UTF-8. The
/// encoder sorts names and keys and replaces invalid UTF-8, so only such
/// tables come back unchanged from an encode-then-parse round trip.
pub open spec fn tables_normal(ts: Seq<(Seq<u8>, Seq<(Seq<u8>, Seq<u8>)>)>) -> bool {
    &&& forall|a: int, b: int|
        0 <= a < b < ts.len() ==> lex_lt((#[trigger] ts[a]).0, (#[trigger] ts[b]).0)
    &&& forall|a: int| 0 <= a < ts.len() ==> utf8_valid((#[trigger] ts[a]).0)
    &&& forall|a: int, i: int, j: int|
        0 <= a < ts.len() && 0 <= i < j < ts[a].1.len() ==> lex_lt(
            (#[trigger] ts[a].1[i]).0,
            (#[trigger] ts[a].1[j]).0,
        )
    &&& forall|a: int, i: int|
        0 <= a < ts.len() && 0 <= i < ts[a].1.len() ==> utf8_valid((#[trigger] ts[a].1[i]).0)
            && utf8_valid(ts[a].1[i].1)
}

/// Relies on toml::from_str: parses a TOML document into tables of string
/// keys and string values; the result depends on the input text alone.
#[verifier::external_body]
fn parse_toml_tables(s: &str) -> (r: Result<Vec<(Vec<u8>, Vec<(Vec<u8>, Vec<u8>)>)>, Vec<u8>>)
    ensures
        r matches Ok(v) ==> toml_doc_of(s@) == Some(tables_view(v@)),
        r is Err ==> toml_doc_of(s@) is None,
{
    match toml::from_str::<BTreeMap<String, BTreeMap<String, String>>>(s) {
        Ok(doc) => Ok(
            doc.into_iter().map(
                |(name, table)|
                    (
                        name.into_bytes(),
                        table.into_iter().map(
                            |(k, v)| (k.into_bytes(), v.into_bytes()),
                        ).collect(),
                    ),
            ).collect(),
        ),
        Err(e) => Err(e.to_string().into_bytes()),
    }
}

/// Relies on toml::to_string_pretty, which always succeeds here: its only
/// documented failure causes are failing Serialize impls, non-string map
/// keys, and unsupported datatypes, none of which a map of string tables
/// can hit. Relies on toml::from_str being its inverse on what it emits:
/// for tables already in the encoder's normal form (names and keys sorted
/// and distinct, everything valid UTF-8, as a BTreeMap of strings holds
/// them) parsing the emitted document yields the same tables back.
#[verifier::external_body]
fn emit_toml_tables(tables: &Vec<(Vec<u8>, Vec<(Vec<u8>, Vec<u8>)>)>) -> (r: Option<String>)
    ensures
        r is Some,
        r matches Some(out) ==> out@ == toml_text_of(tables_view(tables@)),
        r matches Some(out) ==> (tables_normal(tables_view(tables@)) ==> toml_doc_of(out@)
            == Some(tables_view(tables@))),
{
    let mut doc: BTreeMap<String, BTreeMap<String, String>> = BTreeMap::new();
    for (name, table) in tables.iter() {
        let mut inner: BTreeMap<String, String> = BTreeMap::new();
        for (k, v) in table.iter() {
            inner.insert(
                String::from_utf8_lossy(k).into_owned(),
                String::from_utf8_lossy(v).into_owned(),
            );
        }
        doc.insert(String::from_utf8_lossy(name).into_owned(), inner);
    }
    toml::to_string_pretty(&doc).ok()
}

/// The key under which the digest table is stored in the lockfile document.
pub open spec fn files_key() -> Seq<u8> {
    seq![102u8, 105u8, 108u8, 101u8, 115u8]
}

fn files_key_vec() -> (v: Vec<u8>)
    ensures
        v@ == files_key(),
{
    let mut v: Vec<u8> = Vec::new();
    v.push(102u8);
    v.push(105u8);
    v.push(108u8);
    v.push(101u8);
    v.push(115u8);
    proof {
        assert(v@ =~= files_key());
    }
    v
}

/// The first table with the given name, if any.
pub open spec fn find_table(
    ts: Seq<(Seq<u8>, Seq<(Seq<u8>, Seq<u8>)>)>,
    name: Seq<u8>,
) -> Option<Seq<(Seq<u8>, Seq<u8>)>>
    decreases ts.len(),
{
    if ts.len() == 0 {
        None
    } else if ts[0].0 == name {
        Some(ts[0].1)
    } else {
        find_table(ts.drop_first(), name)
    }
}

/// The digest entries a lockfile text denotes: the pairs of its table of
/// files, or `None` if the text is malformed or that table is absent.
pub open spec fn lock_entries_of(s: Seq<char>) -> Option<Seq<(Seq<u8>, Seq<u8>)>> {
    match toml_doc_of(s) {
        Some(ts) => find_table(ts, files_key()),
        None => None,
    }
}

/// Whether the table name and every entry of a digest table are valid
/// UTF-8, as encoding to text requires.
pub open spec fn lock_entries_utf8(es: Seq<(Seq<u8>, Seq<u8>)>) -> bool {
    &&& utf8_valid(files_key())
    &&& forall|i: int|
        0 <= i < es.len() ==> utf8_valid((#[trigger] es[i]).0) && utf8_valid(es[i].1)
}

/// Parses lockfile text into its digest table. Succeeds exactly when the
/// text is a well-formed document holding the table of files; the parsed
/// table maps each recorded path to its digest, later duplicates winning.
pub fn parse_lockfile(text: &str) -> (r: Result<LockfileData, ClampError>)
    ensures
        match r {
            Ok(d) => lock_entries_of(text@) matches Some(ps) && d.files.wf() && d.files@
                == pairs_as_map(ps),
            Err(e) => lock_entries_of(text@) is None && e matches ClampError::LockParseFailed {
                ..
            },
        },
{
    let tables = match parse_toml_tables(text) {
        Ok(tables) => tables,
        Err(detail) => {
            return Err(ClampError::LockParseFailed { detail });
        },
    };
    let key = files_key_vec();
    let nt = tables.len();
    let ghost tv = tables_view(tables@);
    let mut ti: usize = 0;
    proof {
        assert(tv.skip(0) =~= tv);
    }
    while ti < nt
        invariant
            ti <= nt,
            nt == tables@.len(),
            key@ == files_key(),
            tv == tables_view(tables@),
            toml_doc_of(text@) == Some(tv),
            find_table(tv, files_key()) == find_table(tv.skip(ti as int), files_key()),
        decreases nt - ti,
    {
        if eq_bytes(&tables[ti].0, &key) {
            proof {
                assert(tv.skip(ti as int)[0] == tv[ti as int]);
                assert(find_table(tv, files_key()) == Some(pairs_view(tables@[ti as int].1@)));
            }
            let inner = &tables[ti].1;
            let m = inner.len();
            let mut files = DigestTable::new();
            let mut k: usize = 0;
            proof {
                assert(pairs_view(inner@).subrange(0, 0) =~= Seq::<(Seq<u8>, Seq<u8>)>::empty());
            }
            while k < m
                invariant
                    k <= m,
                    m == inner@.len(),
                    files.wf(),
                    files@ == pairs_as_map(pairs_view(inner@).subrange(0, k as int)),
                decreases m - k,
            {
                let pk = clone_bytes(&inner[k].0);
                let pv = clone_bytes(&inner[k].1);
                files.insert(pk, pv);
                proof {
                    let ps = pairs_view(inner@);
                    assert(ps.subrange(0, k as int + 1).drop_last() =~= ps.subrange(0, k as int));
                    assert(ps.subrange(0, k as int + 1).last() == ps[k as int]);
                }
                k = k + 1;
            }
            proof {
                assert(pairs_view(inner@).subrange(0, m as int) =~= pairs_view(inner@));
                assert(toml_doc_of(text@) == Some(tv));
                assert(lock_entries_of(text@) == Some(pairs_view(inner@)));
                assert(files@ == pairs_as_map(pairs_view(inner@)));
            }
            return Ok(LockfileData { files });
        }
        proof {
            assert(tv.skip(ti as int)[0] == tv[ti as int]);
            assert(tv.skip(ti as int).drop_first() =~= tv.skip(ti as int + 1));
        }
        ti = ti + 1;
    }
    proof {
        assert(tv.skip(nt as int).len() == 0);
    }
    Err(ClampError::LockParseFailed { detail: files_key_vec() })
}

/// Encodes the lockfile data as a TOML document holding one table of
/// files, its entries in ascending path order. Succeeds exactly when the
/// recorded paths and digests are valid UTF-8 (the encoder writes text);
/// the emitted text parses back to exactly the serialized entries.
pub fn serialize_lockfile(data: &LockfileData) -> (r: Result<String, ClampError>)
    requires
        data.files.wf(),
    ensures
        match r {
            Ok(out) => {
                &&& lock_entries_utf8(data.files.entries_view())
                &&& out@ == toml_text_of(seq![(files_key(), data.files.entries_view())])
                &&& lock_entries_of(out@) == Some(data.files.entries_view())
            },
            Err(e) => !lock_entries_utf8(data.files.entries_view())
                && e matches ClampError::LockSerializeFailed,
        },
{
    let entries = data.files.entries_vec();
    let key = files_key_vec();
    if !is_utf8(&key) {
        return Err(ClampError::LockSerializeFailed);
    }
    let n = entries.len();
    let mut i: usize = 0;
    while i < n
        invariant
            i <= n,
            n == entries@.len(),
            pairs_view(entries@) == data.files.entries_view(),
            forall|j: int|
                0 <= j < i ==> utf8_valid((#[trigger] data.files.entries_view()[j]).0)
                    && utf8_valid(data.files.entries_view()[j].1),
        decreases n - i,
    {
        let key_ok = is_utf8(&entries[i].0);
        let value_ok = is_utf8(&entries[i].1);
        if !key_ok || !value_ok {
            proof {
                assert(data.files.entries_view()[i as int] == pairs_view(entries@)[i as int]);
            }
            return Err(ClampError::LockSerializeFailed);
        }
        proof {
            assert(data.files.entries_view()[i as int] == pairs_view(entries@)[i as int]);
        }
        i = i + 1;
    }
    let ghost ev = data.files.entries_view();
    proof {
        data.files.lemma_entries_sorted();
        assert(lock_entries_utf8(ev));
    }
    let mut tables: Vec<(Vec<u8>, Vec<(Vec<u8>, Vec<u8>)>)> = Vec::new();
    tables.push((key, entries));
    proof {
        let tv = tables_view(tables@);
        assert(tv =~= seq![(files_key(), ev)]);
        assert(tables_normal(tv)) by {
            assert(forall|a: int| 0 <= a < tv.len() ==> (#[trigger] tv[a]).0 == files_key());
            assert(forall|a: int| 0 <= a < tv.len() ==> (#[trigger] tv[a]).1 == ev);
        }
    }
    match emit_toml_tables(&tables) {
        Some(out) => {
            proof {
                let tv = tables_view(tables@);
                assert(toml_doc_of(out@) == Some(tv));
                assert(find_table(tv, files_key()) == Some(ev));
                assert(lock_entries_of(out@) == Some(ev));
            }
            Ok(out)
        },
        None => Err(ClampError::LockSerializeFailed),
    }
}

/// Serialize-then-parse round trip: parsing the text that encoding a
/// table produced recovers exactly that table's mapping, keys and values
/// alike. The hypotheses are what `serialize_lockfile` ensures of its
/// output and what `parse_lockfile` ensures of its result.
pub proof fn lemma_lock_round_trip(d: LockfileData, text: Seq<char>, parsed: LockfileData)
    requires
        d.files.wf(),
        parsed.files.wf(),
        lock_entries_of(text) == Some(d.files.entries_view()),
        lock_entries_of(text) matches Some(ps) && parsed.files@ == pairs_as_map(ps),
    ensures
        parsed.files@ == d.files@,
{
    d.files.lemma_entries_as_map();
}

} // verus!
