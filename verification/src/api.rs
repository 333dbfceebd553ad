//! The answers of the HTTP API: what a request asks, and the text sent back.
use vstd::prelude::*;
use crate::store::{sorted_seq_of, AsSetView, DataStore};
use crate::text::{
    nonempty_pieces, chars_of, decimal, push_decimal, push_str, sorted_unique, split_chars, split_on,
    string_of, views, extend_strings, is_strictly_sorted,
};

verus! {

/// The parameters of an API request.
pub struct ApiQuery {
    /// The AS-set asked for.
    pub name: String,
    /// How deep member AS-sets are followed; the configured default where
    /// none is given.
    pub recursion_depth: Option<u32>,
    /// AS-sets not to follow, separated by commas.
    pub ignore_as_sets: String,
    /// The data sources to ask, separated by commas; all where none are given.
    pub datasources: String,
    /// Data sources not to ask, separated by commas.
    pub ignore_datasource: String,
}

/// The entries of a comma-separated parameter: the non-empty pieces between
/// its commas.
pub open spec fn list_entries(text: Seq<char>) -> Seq<Seq<char>> {
    nonempty_pieces(split_on(text, ','))
}

/// The entries of a comma-separated parameter.
pub fn list_param(text: &str) -> (r: Vec<String>)
    ensures
        views(r@) == list_entries(text@),
{
    let pieces = split_chars(&chars_of(text), ',');
    let ghost all = crate::text::char_vecs(pieces@);
    let mut r: Vec<String> = Vec::new();
    let mut i: usize = 0;
    while i < pieces.len()
        invariant
            i <= pieces@.len(),
            all == crate::text::char_vecs(pieces@),
            all == split_on(text@, ','),
            views(r@) == nonempty_pieces(all.take(i as int)),
        decreases pieces@.len() - i,
    {
        assert(all.take(i + 1).drop_last() =~= all.take(i as int));
        assert(all.take(i + 1).last() == pieces@[i as int]@);
        if pieces[i].len() > 0 {
            let ghost before = views(r@);
            let piece = string_of(pieces[i].as_slice());
            r.push(piece);
            assert(views(r@) =~= before + seq![pieces@[i as int]@]);
        } else {
            assert(nonempty_pieces(all.take(i + 1)) =~= nonempty_pieces(all.take(i as int)));
        }
        i = i + 1;
    }
    assert(all.take(pieces@.len() as int) =~= all);
    r
}

/// The recursion depth of a request: the one it gives, or the default.
pub open spec fn depth_of(query_depth: Option<u32>, default_depth: u32) -> u32 {
    match query_depth {
        Some(d) => d,
        None => default_depth,
    }
}

impl DataStore {
    /// The prefixes that a route request for `query` answers, each once, in
    /// ascending order.
    pub fn routes_from_as_set(&self, query: &ApiQuery, default_depth: u32) -> (r: Option<Vec<String>>)
        ensures
            r is Some,
            is_strictly_sorted(views(r.unwrap()@)),
            views(r.unwrap()@).to_set() == self.prefixes_of(
                self.resolve_as_set(
                    query.name@,
                    depth_of(query.recursion_depth, default_depth) as nat,
                    list_entries(query.ignore_as_sets@),
                    list_entries(query.ignore_datasource@),
                ),
                self.sorted_sources(list_entries(query.ignore_datasource@)),
            ).to_set(),
    {
        let depth = match query.recursion_depth {
            Some(d) => d,
            None => default_depth,
        };
        let ignore_as_sets = list_param(query.ignore_as_sets.as_str());
        let ignore_datasource = list_param(query.ignore_datasource.as_str());
        match self.query_as_set_prefixes_recursive(query.name.clone(), depth, ignore_as_sets, &ignore_datasource) {
            Some(value) => Some(sorted_unique(value)),
            None => None,
        }
    }

    /// The AS numbers that an AS-number request for `query` answers, each
    /// once, in ascending order.
    pub fn asns_from_as_set(&self, query: &ApiQuery, default_depth: u32) -> (r: Option<Vec<String>>)
        ensures
            r is Some,
            is_strictly_sorted(views(r.unwrap()@)),
            views(r.unwrap()@).to_set() == self.resolve_as_set(
                query.name@,
                depth_of(query.recursion_depth, default_depth) as nat,
                list_entries(query.ignore_as_sets@),
                list_entries(query.ignore_datasource@),
            ).to_set(),
    {
        let depth = match query.recursion_depth {
            Some(d) => d,
            None => default_depth,
        };
        let ignore_as_sets = list_param(query.ignore_as_sets.as_str());
        let ignore_datasource = list_param(query.ignore_datasource.as_str());
        match self.query_as_set_recursive(query.name.clone(), depth, ignore_as_sets, &ignore_datasource) {
            Some(value) => Some(sorted_unique(value)),
            None => None,
        }
    }

    /// The members of the AS-set that an AS-set request for `query` answers,
    /// AS-sets and AS numbers together, each once, in ascending order; none
    /// where no data source asked has the AS-set.
    pub fn as_set_listing(&self, query: &ApiQuery) -> (r: Option<Vec<String>>)
        ensures
            match self.as_set_answer(
                list_entries(query.datasources@),
                query.name@,
                list_entries(query.ignore_datasource@),
            ) {
                Some(members) => r is Some && is_strictly_sorted(views(r.unwrap()@)) && views(r.unwrap()@).to_set()
                    == (members.1 + members.0).to_set(),
                None => r is None,
            },
    {
        let ignore_datasource = list_param(query.ignore_datasource.as_str());
        let datasources = list_param(query.datasources.as_str());
        match self.query_as_set(datasources, query.name.clone(), ignore_datasource.as_slice()) {
            Some(value) => {
                let mut result = crate::text::clone_strings(&value.as_sets);
                extend_strings(&mut result, &value.asns);
                Some(sorted_unique(result))
            },
            None => None,
        }
    }
}

/// How the `Serialize` implementation of `serde_json` writes a list of
/// strings with `to_string_pretty`.
pub uninterp spec fn pretty_json(items: Seq<Seq<char>>) -> Seq<char>;

/// `serde_json::to_string_pretty` on a list of strings. Writing strings
/// cannot fail; the empty text stands for a failure that does not occur.
#[verifier::external_body]
fn to_pretty_json(items: &Vec<String>) -> (r: String)
    ensures
        r@ == pretty_json(views(items@)),
{
    serde_json::to_string_pretty(items).unwrap_or_default()
}

/// The text of an answer that lists `items`: a comment line that says what
/// was asked, how long it took and how many items there are, then the items
/// as a JSON list.
pub open spec fn listing_text(title: Seq<char>, name: Seq<char>, elapsed_micros: nat, items: Seq<Seq<char>>) -> Seq<char> {
    "# "@ + title + " for '"@ + name + "' in "@ + decimal(elapsed_micros) + "μs, "@ + decimal(items.len())
        + " items\n"@ + pretty_json(items)
}

/// The text of an answer that lists `items`.
pub fn listing_response(title: &str, name: &str, elapsed_micros: u128, items: &Vec<String>) -> (r: String)
    ensures
        r@ == listing_text(title@, name@, elapsed_micros as nat, views(items@)),
{
    let mut r = String::new();
    push_str(&mut r, "# ");
    push_str(&mut r, title);
    push_str(&mut r, " for '");
    push_str(&mut r, name);
    push_str(&mut r, "' in ");
    push_decimal(&mut r, elapsed_micros);
    push_str(&mut r, "μs, ");
    push_decimal(&mut r, items.len() as u128);
    push_str(&mut r, " items\n");
    let json = to_pretty_json(items);
    push_str(&mut r, json.as_str());
    assert(r@ =~= listing_text(title@, name@, elapsed_micros as nat, views(items@)));
    r
}

/// The answer where a recursive request finds nothing.
pub fn value_not_found_response(name: &str) -> (r: String)
    ensures
        r@ == "Value for '"@ + name@ + "' not found in cache."@,
{
    let mut r = String::new();
    push_str(&mut r, "Value for '");
    push_str(&mut r, name);
    push_str(&mut r, "' not found in cache.");
    assert(r@ =~= "Value for '"@ + name@ + "' not found in cache."@);
    r
}

/// The answer where no data source asked has the AS-set.
pub fn as_set_not_found_response(name: &str) -> (r: String)
    ensures
        r@ == "AS-SET '"@ + name@ + "' not found in cache."@,
{
    let mut r = String::new();
    push_str(&mut r, "AS-SET '");
    push_str(&mut r, name);
    push_str(&mut r, "' not found in cache.");
    assert(r@ =~= "AS-SET '"@ + name@ + "' not found in cache."@);
    r
}

/// The entries of a comma-separated parameter are never empty and hold no
/// comma.
pub proof fn law_list_entries_are_clean(text: Seq<char>)
    ensures
        forall|k: int| 0 <= k < list_entries(text).len() ==> (#[trigger] list_entries(text)[k]).len() > 0
            && !list_entries(text)[k].contains(','),
{
    crate::text::lemma_nonempty_pieces(split_on(text, ','));
    crate::text::law_split_pieces_lack_separator(text, ',');
    assert forall|k: int| 0 <= k < list_entries(text).len() implies (#[trigger] list_entries(text)[k]).len() > 0
        && !list_entries(text)[k].contains(',') by {
        let e = list_entries(text)[k];
        assert(split_on(text, ',').contains(e));
        let m = choose|m: int| 0 <= m < split_on(text, ',').len() && split_on(text, ',')[m] == e;
    }
}

} // verus!
