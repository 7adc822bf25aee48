//! The embedded map list: named JSON documents, each a list of strings.
//!
//! The documents are compiled into the binary by the caller and handed
//! in as plain values; queries look a document up by name, and `demap`
//! resolves one numbered entry of a document's JSON list.

use vstd::prelude::*;

verus! {

/// What parsing a JSON list of strings yields, when the document is one.
pub uninterp spec fn json_string_list_of(s: Seq<char>) -> Option<Seq<Seq<char>>>;

/// Relies on `serde_json::from_str::<Vec<String>>`: the result depends
/// on the document text alone.
#[verifier::external_body]
fn parse_json_string_list(s: &str) -> (r: Option<Vec<String>>)
    ensures
        r is Some <==> json_string_list_of(s@) is Some,
        r matches Some(v) ==> v.deep_view() == json_string_list_of(s@)->0,
{
    match serde_json::from_str::<Vec<String>>(s) {
        Ok(v) => Some(v),
        Err(_) => None,
    }
}

/// One embedded document: its name (the file stem) and its JSON text.
#[derive(Debug)]
pub struct MapEntry {
    pub name: String,
    pub contents: String,
}

/// The embedded documents, in their bundled order.
#[derive(Debug)]
pub struct MapStore {
    entries: Vec<MapEntry>,
}

/// The index of the first document with the given name.
pub open spec fn spec_find_map(entries: Seq<MapEntry>, key: Seq<char>) -> Option<int>
    decreases entries.len(),
{
    if entries.len() == 0 {
        None
    } else if entries[0].name@ == key {
        Some(0)
    } else {
        match spec_find_map(entries.skip(1), key) {
            None => None,
            Some(i) => Some(i + 1),
        }
    }
}

impl MapStore {
    pub closed spec fn view(self) -> Seq<MapEntry> {
        self.entries@
    }

    pub fn new(entries: Vec<MapEntry>) -> (r: MapStore)
        ensures
            r@ == entries@,
    {
        MapStore { entries }
    }
}

/// The names of all embedded documents, in order.
pub fn map_names(store: &MapStore) -> (r: Vec<String>)
    ensures
        r@.len() == store@.len(),
        forall|i: int| 0 <= i < r@.len() ==> (#[trigger] r@[i])@ == store@[i].name@,
{
    let mut out: Vec<String> = Vec::new();
    let mut i: usize = 0;
    while i < store.entries.len()
        invariant
            i <= store@.len(),
            out@.len() == i,
            forall|j: int| 0 <= j < i ==> (#[trigger] out@[j])@ == store@[j].name@,
        decreases store@.len() - i,
    {
        out.push(store.entries[i].name.clone());
        i += 1;
    }
    out
}

/// The JSON text of the document named `key`, if one is embedded.
pub fn query_map(store: &MapStore, key: &String) -> (r: Option<String>)
    ensures
        match spec_find_map(store@, key@) {
            None => r is None,
            Some(i) => r matches Some(s) && s@ == store@[i].contents@,
        },
{
    let mut i: usize = 0;
    proof {
        assert(store@.skip(0) =~= store@);
    }
    while i < store.entries.len()
        invariant
            i <= store@.len(),
            spec_find_map(store@, key@) == match spec_find_map(
                store@.skip(i as int),
                key@,
            ) {
                None => None::<int>,
                Some(w) => Some(w + i),
            },
        decreases store@.len() - i,
    {
        proof {
            assert(store@.skip(i as int)[0] == store@[i as int]);
            assert(store@.skip(i as int).skip(1) =~= store@.skip(i + 1));
        }
        if store.entries[i].name.eq(key) {
            return Some(store.entries[i].contents.clone());
        }
        i += 1;
    }
    None
}

/// Entry `n` of the JSON list in the document named `key`: nothing when
/// the document is missing, is not a list of strings, or is too short.
/// A malformed document is thus answered like a missing one, a softer
/// edge than refusing to start with it embedded.
pub fn demap(store: &MapStore, key: &String, n: u16) -> (r: Option<String>)
    ensures
        match spec_find_map(store@, key@) {
            None => r is None,
            Some(i) => match json_string_list_of(store@[i].contents@) {
                None => r is None,
                Some(list) => if n < list.len() {
                    r matches Some(s) && s@ == list[n as int]
                } else {
                    r is None
                },
            },
        },
{
    let contents = match query_map(store, key) {
        None => {
            return None;
        },
        Some(c) => c,
    };
    let list = match parse_json_string_list(contents.as_str()) {
        None => {
            return None;
        },
        Some(l) => l,
    };
    if (n as usize) < list.len() {
        let s = list[n as usize].clone();
        proof {
            let i = spec_find_map(store@, key@)->0;
            let spec_list = json_string_list_of(store@[i].contents@)->0;
            assert(list.deep_view()[n as int] == spec_list[n as int]);
        }
        Some(s)
    } else {
        None
    }
}

} // verus!
