//! The in-memory store of data sources, AS-sets and routes, and the queries
//! that resolve AS-sets into AS numbers and prefixes.
use vstd::prelude::*;
use vstd::hash_map::StringHashMap;
use crate::names::{is_as_set, is_as_set_name, is_asn, is_asn_name, is_public_asn, is_public_asn_name};
use crate::prefix::{normalize_prefix, normalized_prefix};
use crate::rpsl::{parse_object, rpsl_parse, values_named};
use crate::text::{
    before_first, before_first_chars, char_vecs, chars_of, clone_strings, contains_string,
    debug_quoted, debug_text, push_char, ascii_uppercase, is_ascii_text, lemma_str_lt_total, lemma_str_lt_transitive, push_str,
    extend_strings, is_strictly_sorted, lemma_str_lt_asymmetric, lemma_str_lt_irreflexive,
    sorted_unique, split_chars, split_on, str_lt, string_of, trim_chars, trimmed, words,
    words_of,
    unicode_uppercase, uppercase, views,
};

verus! {

// ---------------------------------------------------------------------------
// Data sources
// ---------------------------------------------------------------------------

/// A data source: the serial of the data imported from it, and its priority
/// (a higher priority is asked first).
#[derive(Clone, Copy)]
pub struct DataSource {
    pub current_serial: u64,
    pub priority: i64,
}

impl Default for DataSource {
    fn default() -> (r: Self)
        ensures
            r.current_serial == 0,
            r.priority == 0,
    {
        DataSource { current_serial: 0, priority: 0 }
    }
}

/// A data source with its name.
pub type SourceEntry = (Seq<char>, DataSource);

/// `sorted` (in descending priority) with `e` put after every entry whose
/// priority is at least that of `e`.
pub open spec fn insert_by_priority(sorted: Seq<SourceEntry>, e: SourceEntry) -> Seq<SourceEntry>
    decreases sorted.len(),
{
    if sorted.len() == 0 {
        seq![e]
    } else if sorted.last().1.priority >= e.1.priority {
        sorted.push(e)
    } else {
        insert_by_priority(sorted.drop_last(), e).push(sorted.last())
    }
}

/// `entries` sorted by descending priority, entries of equal priority in
/// the order they came in: what a stable sort by `Reverse(priority)` gives.
pub open spec fn sort_by_priority(entries: Seq<SourceEntry>) -> Seq<SourceEntry>
    decreases entries.len(),
{
    if entries.len() == 0 {
        Seq::empty()
    } else {
        insert_by_priority(sort_by_priority(entries.drop_last()), entries.last())
    }
}

/// The entries whose name is not in `excluded`, in order.
pub open spec fn entries_without(entries: Seq<SourceEntry>, excluded: Seq<Seq<char>>) -> Seq<
    SourceEntry,
>
    decreases entries.len(),
{
    if entries.len() == 0 {
        Seq::empty()
    } else {
        let rest = entries_without(entries.drop_last(), excluded);
        if excluded.contains(entries.last().0) {
            rest
        } else {
            rest.push(entries.last())
        }
    }
}

/// The names of `entries`, in order.
pub open spec fn names_of(entries: Seq<SourceEntry>) -> Seq<Seq<char>> {
    entries.map_values(|e: SourceEntry| e.0)
}

/// The names in `names` that are not in `excluded`, in order.
pub open spec fn names_without(names: Seq<Seq<char>>, excluded: Seq<Seq<char>>) -> Seq<Seq<char>>
    decreases names.len(),
{
    if names.len() == 0 {
        Seq::empty()
    } else {
        let rest = names_without(names.drop_last(), excluded);
        if excluded.contains(names.last()) {
            rest
        } else {
            rest.push(names.last())
        }
    }
}

/// `entries` with the data source `name` set to `ds`: in the place where it
/// stands, where it is registered; added at the end otherwise.
pub open spec fn entries_put(entries: Seq<SourceEntry>, name: Seq<char>, ds: DataSource) -> Seq<SourceEntry> {
    if exists|i: int| 0 <= i < entries.len() && (#[trigger] entries[i]).0 == name {
        entries.update(choose|i: int| 0 <= i < entries.len() && (#[trigger] entries[i]).0 == name, (name, ds))
    } else {
        entries.push((name, ds))
    }
}

/// No name occurs twice.
pub open spec fn unique_names(entries: Seq<SourceEntry>) -> bool {
    forall|i: int, j: int|
        0 <= i < j < entries.len() ==> (#[trigger] entries[i]).0 != (#[trigger] entries[j]).0
}


// ---------------------------------------------------------------------------
// AS-sets and routes
// ---------------------------------------------------------------------------

proof fn lemma_insert_by_priority_at(s: Seq<SourceEntry>, e: SourceEntry, p: int)
    requires
        0 <= p <= s.len(),
        forall|k: int| p <= k < s.len() ==> (#[trigger] s[k]).1.priority < e.1.priority,
        p == 0 || s[p - 1].1.priority >= e.1.priority,
    ensures
        insert_by_priority(s, e) == s.insert(p, e),
    decreases s.len(),
{
    if s.len() == 0 {
        assert(s.insert(p, e) =~= seq![e]);
    } else if p == s.len() {
        assert(s.insert(p, e) =~= s.push(e));
    } else {
        let t = s.drop_last();
        assert forall|k: int| p <= k < t.len() implies (#[trigger] t[k]).1.priority < e.1.priority by {
            assert(t[k] == s[k]);
        }
        if p > 0 {
            assert(t[p - 1] == s[p - 1]);
        }
        assert(s.last().1.priority < e.1.priority);
        lemma_insert_by_priority_at(t, e, p);
        assert(t.insert(p, e).push(s.last()) =~= s.insert(p, e));
    }
}

/// The data sources of `entries` by name.
pub open spec fn entries_map(entries: Seq<SourceEntry>) -> Map<Seq<char>, DataSource> {
    Map::new(
        |n: Seq<char>| exists|i: int| 0 <= i < entries.len() && (#[trigger] entries[i]).0 == n,
        |n: Seq<char>| entries[choose|i: int| 0 <= i < entries.len() && (#[trigger] entries[i]).0 == n].1,
    )
}

proof fn lemma_entry_index(entries: Seq<SourceEntry>, k: int)
    requires
        unique_names(entries),
        0 <= k < entries.len(),
    ensures
        entries_map(entries).contains_key(entries[k].0),
        entries_map(entries)[entries[k].0] == entries[k].1,
{
    let n = entries[k].0;
    assert(exists|i: int| 0 <= i < entries.len() && (#[trigger] entries[i]).0 == n);
    let c = choose|i: int| 0 <= i < entries.len() && (#[trigger] entries[i]).0 == n;
    if c != k {
        if c < k {
            assert(entries[c].0 != entries[k].0);
        } else {
            assert(entries[k].0 != entries[c].0);
        }
    }
}

proof fn lemma_replace_entry(entries: Seq<SourceEntry>, i: int, n: Seq<char>, d: DataSource)
    requires
        unique_names(entries),
        0 <= i < entries.len(),
        entries[i].0 == n,
    ensures
        unique_names(entries.update(i, (n, d))),
        entries_map(entries.update(i, (n, d))) == entries_map(entries).insert(n, d),
{
    let e2 = entries.update(i, (n, d));
    assert(unique_names(e2)) by {
        assert forall|a: int, b: int| 0 <= a < b < e2.len() implies (#[trigger] e2[a]).0 != (
        #[trigger] e2[b]).0 by {
            assert(entries[a].0 != entries[b].0);
        }
    }
    let m1 = entries_map(e2);
    let m2 = entries_map(entries).insert(n, d);
    assert forall|m: Seq<char>| m1.contains_key(m) <==> m2.contains_key(m) by {
        if m1.contains_key(m) {
            let k = choose|k: int| 0 <= k < e2.len() && (#[trigger] e2[k]).0 == m;
            if k != i {
                assert(entries[k].0 == m);
            }
        }
        if m2.contains_key(m) && m != n {
            let k = choose|k: int| 0 <= k < entries.len() && (#[trigger] entries[k]).0 == m;
            assert(e2[k].0 == m);
        }
        if m == n {
            assert(e2[i].0 == m);
        }
    }
    assert forall|m: Seq<char>| m1.contains_key(m) implies m1[m] == m2[m] by {
        let k = choose|k: int| 0 <= k < e2.len() && (#[trigger] e2[k]).0 == m;
        lemma_entry_index(e2, k);
        if k != i {
            lemma_entry_index(entries, k);
        }
    }
    assert(m1 =~= m2);
}

proof fn lemma_add_entry(entries: Seq<SourceEntry>, n: Seq<char>, d: DataSource)
    requires
        unique_names(entries),
        forall|k: int| 0 <= k < entries.len() ==> entries[k].0 != n,
    ensures
        unique_names(entries.push((n, d))),
        entries_map(entries.push((n, d))) == entries_map(entries).insert(n, d),
{
    let e2 = entries.push((n, d));
    assert(unique_names(e2)) by {
        assert forall|a: int, b: int| 0 <= a < b < e2.len() implies (#[trigger] e2[a]).0 != (
        #[trigger] e2[b]).0 by {
            if b < entries.len() {
                assert(entries[a].0 != entries[b].0);
            } else {
                assert(entries[a].0 != n);
            }
        }
    }
    let m1 = entries_map(e2);
    let m2 = entries_map(entries).insert(n, d);
    assert forall|m: Seq<char>| m1.contains_key(m) <==> m2.contains_key(m) by {
        if m1.contains_key(m) && m != n {
            let k = choose|k: int| 0 <= k < e2.len() && (#[trigger] e2[k]).0 == m;
            assert(entries[k].0 == m);
        }
        if m2.contains_key(m) && m != n {
            let k = choose|k: int| 0 <= k < entries.len() && (#[trigger] entries[k]).0 == m;
            assert(e2[k].0 == m);
        }
        if m == n {
            assert(e2[entries.len() as int].0 == m);
        }
    }
    assert forall|m: Seq<char>| m1.contains_key(m) implies m1[m] == m2[m] by {
        let k = choose|k: int| 0 <= k < e2.len() && (#[trigger] e2[k]).0 == m;
        lemma_entry_index(e2, k);
        if k < entries.len() {
            lemma_entry_index(entries, k);
        }
    }
    assert(m1 =~= m2);
}

/// The members of an AS-set: the AS numbers and the AS-sets it names.
pub struct AsSet {
    pub asns: Vec<String>,
    pub as_sets: Vec<String>,
}

/// An AS-set as the store's contracts see it: its AS numbers and its AS-sets.
pub type AsSetView = (Seq<Seq<char>>, Seq<Seq<char>>);

impl View for AsSet {
    type V = AsSetView;

    open spec fn view(&self) -> AsSetView {
        (views(self.asns@), views(self.as_sets@))
    }
}

impl AsSet {
    /// An AS-set without members.
    pub fn new() -> (r: Self)
        ensures
            r@ == (Seq::<Seq<char>>::empty(), Seq::<Seq<char>>::empty()),
    {
        let r = AsSet { asns: Vec::new(), as_sets: Vec::new() };
        assert(r@.0 =~= Seq::<Seq<char>>::empty());
        assert(r@.1 =~= Seq::<Seq<char>>::empty());
        r
    }

    /// A copy of this AS-set.
    pub fn duplicate(&self) -> (r: Self)
        ensures
            r@ == self@,
    {
        AsSet { asns: clone_strings(&self.asns), as_sets: clone_strings(&self.as_sets) }
    }
}

/// The prefixes that route objects allow an AS to originate.
pub struct AsRoutes {
    pub prefixes: Vec<String>,
}

impl View for AsRoutes {
    type V = Seq<Seq<char>>;

    open spec fn view(&self) -> Seq<Seq<char>> {
        views(self.prefixes@)
    }
}

impl AsRoutes {
    /// A copy of these routes.
    pub fn duplicate(&self) -> (r: Self)
        ensures
            r@ == self@,
    {
        AsRoutes { prefixes: clone_strings(&self.prefixes) }
    }
}

/// The AS-sets and routes of one data source. Routes are kept in a list per
/// AS, found through a map from the AS to its place in `route_lists`.
struct SourceTables {
    source: String,
    as_sets: StringHashMap<AsSet>,
    route_slots: StringHashMap<usize>,
    route_lists: Vec<AsRoutes>,
}

impl SourceTables {
    spec fn wf(&self) -> bool {
        &&& forall|k: Seq<char>| #[trigger]
            self.route_slots@.contains_key(k) ==> self.route_slots@[k] < self.route_lists@.len()
        &&& forall|k1: Seq<char>, k2: Seq<char>|
            #[trigger] self.route_slots@.contains_key(k1) && #[trigger] self.route_slots@.contains_key(k2)
                && self.route_slots@[k1] == self.route_slots@[k2] ==> k1 == k2
    }

    spec fn as_set_view(&self) -> Map<Seq<char>, AsSetView> {
        Map::new(|k: Seq<char>| self.as_sets@.contains_key(k), |k: Seq<char>| self.as_sets@[k]@)
    }

    spec fn route_view(&self) -> Map<Seq<char>, Seq<Seq<char>>> {
        Map::new(
            |k: Seq<char>| self.route_slots@.contains_key(k),
            |k: Seq<char>| self.route_lists@[self.route_slots@[k] as int]@,
        )
    }

    fn new(source: String) -> (r: Self)
        ensures
            r.wf(),
            r.source@ == source@,
            r.as_set_view() == Map::<Seq<char>, AsSetView>::empty(),
            r.route_view() == Map::<Seq<char>, Seq<Seq<char>>>::empty(),
    {
        let r = SourceTables {
            source,
            as_sets: StringHashMap::new(),
            route_slots: StringHashMap::new(),
            route_lists: Vec::new(),
        };
        assert(r.as_set_view() =~= Map::<Seq<char>, AsSetView>::empty());
        assert(r.route_view() =~= Map::<Seq<char>, Seq<Seq<char>>>::empty());
        r
    }

    fn insert_as_set(&mut self, name: String, set: AsSet)
        requires
            old(self).wf(),
        ensures
            final(self).wf(),
            final(self).source == old(self).source,
            final(self).route_view() == old(self).route_view(),
            final(self).as_set_view() == old(self).as_set_view().insert(name@, set@),
    {
        let ghost n = name@;
        let ghost v = set@;
        self.as_sets.insert(name, set);
        assert(self.as_set_view() =~= old(self).as_set_view().insert(n, v));
        assert(self.route_view() =~= old(self).route_view());
    }

    fn add_route(&mut self, asn: String, prefix: String)
        requires
            old(self).wf(),
        ensures
            final(self).wf(),
            final(self).source == old(self).source,
            final(self).as_set_view() == old(self).as_set_view(),
            final(self).route_view() == old(self).route_view().insert(
                asn@,
                if old(self).route_view().contains_key(asn@) {
                    old(self).route_view()[asn@].push(prefix@)
                } else {
                    seq![prefix@]
                },
            ),
    {
        let ghost old_view = self.route_view();
        match self.route_slots.get(asn.as_str()) {
            Some(slot) => {
                let j = *slot;
                let ghost p = prefix@;
                let ghost before = self.route_lists@[j as int]@;
                self.route_lists[j].prefixes.push(prefix);
                assert(self.route_lists@[j as int]@ =~= before.push(p));
                assert(self.route_view() =~= old_view.insert(asn@, before.push(p)));
            },
            None => {
                let j = self.route_lists.len();
                let ghost p = prefix@;
                let ghost a = asn@;
                let list = vec![prefix];
                self.route_lists.push(AsRoutes { prefixes: list });
                self.route_slots.insert(asn, j);
                assert(self.route_lists@[j as int]@ =~= seq![p]);
                assert(self.route_view() =~= old_view.insert(a, seq![p]));
            },
        }
    }
}


/// What is found under `name` in the first of `sources` that has it.
pub open spec fn first_found<V>(m: Map<StoreKey, V>, sources: Seq<Seq<char>>, name: Seq<char>) -> Option<V>
    decreases sources.len(),
{
    if sources.len() == 0 {
        None
    } else if m.contains_key((sources[0], name)) {
        Some(m[(sources[0], name)])
    } else {
        first_found(m, sources.drop_first(), name)
    }
}

proof fn lemma_table_at(tables: Seq<SourceTables>, source: Seq<char>, i: int)
    requires
        forall|a: int, b: int|
            0 <= a < b < tables.len() ==> (#[trigger] tables[a]).source@ != (#[trigger] tables[b]).source@,
        0 <= i < tables.len(),
        tables[i].source@ == source,
    ensures
        has_table(tables, source),
        table_at(tables, source) == i,
{
    assert(has_table(tables, source));
    let c = table_at(tables, source);
    if c < i {
        assert(tables[c].source@ != tables[i].source@);
    } else if c > i {
        assert(tables[i].source@ != tables[c].source@);
    }
}

/// The place of the table of `source` among `tables`, if there is one.
#[verifier::loop_isolation(false)]
fn find_table(tables: &Vec<SourceTables>, source: &String) -> (r: Option<usize>)
    requires
        forall|a: int, b: int|
            0 <= a < b < tables@.len() ==> (#[trigger] tables@[a]).source@ != (#[trigger] tables@[b]).source@,
    ensures
        match r {
            Some(i) => i < tables@.len() && has_table(tables@, source@) && table_at(tables@, source@) == i,
            None => !has_table(tables@, source@),
        },
{
    let mut i: usize = 0;
    while i < tables.len()
        invariant
            i <= tables@.len(),
            forall|k: int| 0 <= k < i ==> (#[trigger] tables@[k]).source@ != source@,
        decreases tables@.len() - i,
    {
        if tables[i].source == *source {
            proof {
                lemma_table_at(tables@, source@, i as int);
            }
            return Some(i);
        }
        i = i + 1;
    }
    None
}

// ---------------------------------------------------------------------------
// Normalising AS-set members
// ---------------------------------------------------------------------------

/// A member or a name as the store keeps it: cut at the first `#` (a
/// comment), white space removed at both ends, in upper case.
pub open spec fn clean_text(t: Seq<char>) -> Seq<char> {
    unicode_uppercase(trimmed(before_first(t, '#')))
}

/// The entries of the comma-separated `pieces` of a `members` line: the
/// words of each piece before its first `#`.
pub open spec fn piece_words(pieces: Seq<Seq<char>>) -> Seq<Seq<char>>
    decreases pieces.len(),
{
    if pieces.len() == 0 {
        Seq::empty()
    } else {
        piece_words(pieces.drop_last()) + words(before_first(pieces.last(), '#'))
    }
}

/// The entries of `members` lines: each line is split at its commas, each
/// piece cut at its first `#` (a comment) and split at white space.
pub open spec fn member_tokens(members: Seq<Seq<char>>) -> Seq<Seq<char>>
    decreases members.len(),
{
    if members.len() == 0 {
        Seq::empty()
    } else {
        member_tokens(members.drop_last()) + piece_words(split_on(members.last(), ','))
    }
}

/// The entries among `tokens`, in upper case, that are AS numbers in public
/// use, in order.
pub open spec fn asn_members(tokens: Seq<Seq<char>>) -> Seq<Seq<char>>
    decreases tokens.len(),
{
    if tokens.len() == 0 {
        Seq::empty()
    } else {
        let c = unicode_uppercase(tokens.last());
        asn_members(tokens.drop_last()) + if is_public_asn_name(c) {
            seq![c]
        } else {
            Seq::empty()
        }
    }
}

/// The entries among `tokens`, in upper case, that are AS-set names (and
/// not AS numbers), in order.
pub open spec fn as_set_members(tokens: Seq<Seq<char>>) -> Seq<Seq<char>>
    decreases tokens.len(),
{
    if tokens.len() == 0 {
        Seq::empty()
    } else {
        let c = unicode_uppercase(tokens.last());
        as_set_members(tokens.drop_last()) + if !is_asn_name(c) && is_as_set_name(c) {
            seq![c]
        } else {
            Seq::empty()
        }
    }
}

/// The elements of `s` in ascending order, each once.
pub open spec fn sorted_seq_of(s: Set<Seq<char>>) -> Seq<Seq<char>> {
    choose|q: Seq<Seq<char>>| is_strictly_sorted(q) && q.to_set() == s
}

/// `q` with `x` put in its place, unless `q` holds it already.
pub open spec fn sorted_insert(q: Seq<Seq<char>>, x: Seq<char>) -> Seq<Seq<char>>
    decreases q.len(),
{
    if q.len() == 0 {
        seq![x]
    } else if q.last() == x {
        q
    } else if str_lt(q.last(), x) {
        q.push(x)
    } else {
        sorted_insert(q.drop_last(), x).push(q.last())
    }
}

proof fn lemma_sorted_insert(q: Seq<Seq<char>>, x: Seq<char>)
    requires
        is_strictly_sorted(q),
    ensures
        is_strictly_sorted(sorted_insert(q, x)),
        sorted_insert(q, x).to_set() == q.to_set().insert(x),
    decreases q.len(),
{
    if q.len() == 0 {
        assert(seq![x].to_set() =~= q.to_set().insert(x)) by {
            crate::text::lemma_push_contains(q, x);
            assert(seq![x] =~= q.push(x));
        }
    } else if q.last() == x {
        assert(q[q.len() - 1] == x);
        assert(q.to_set() =~= q.to_set().insert(x));
    } else if str_lt(q.last(), x) {
        crate::text::lemma_push_contains(q, x);
        assert(q.push(x).to_set() =~= q.to_set().insert(x));
        assert forall|i: int, j: int| 0 <= i < j < q.push(x).len() implies str_lt(
            #[trigger] q.push(x)[i],
            #[trigger] q.push(x)[j],
        ) by {
            if j == q.len() {
                if i < q.len() - 1 {
                    assert(str_lt(q[i], q[q.len() - 1]));
                    lemma_str_lt_transitive(q[i], q.last(), x);
                }
            } else {
                assert(str_lt(q[i], q[j]));
            }
        }
    } else {
        let t = q.drop_last();
        let last = q.last();
        lemma_str_lt_total(last, x);
        assert(str_lt(x, last));
        assert(is_strictly_sorted(t)) by {
            assert forall|i: int, j: int| 0 <= i < j < t.len() implies str_lt(#[trigger] t[i], #[trigger] t[j]) by {
                assert(str_lt(q[i], q[j]));
            }
        }
        lemma_sorted_insert(t, x);
        let r = sorted_insert(t, x);
        crate::text::lemma_push_contains(t, last);
        crate::text::lemma_push_contains(r, last);
        assert(q =~= t.push(last));
        assert forall|y: Seq<char>| r.push(last).to_set().contains(y) <==> q.to_set().insert(x).contains(y) by {
            assert(r.push(last).contains(y) <==> (r.contains(y) || y == last));
            assert(r.to_set().contains(y) <==> t.to_set().insert(x).contains(y));
            assert(q.contains(y) <==> (t.contains(y) || y == last));
        }
        assert(r.push(last).to_set() =~= q.to_set().insert(x));
        assert forall|i: int, j: int| 0 <= i < j < r.push(last).len() implies str_lt(
            #[trigger] r.push(last)[i],
            #[trigger] r.push(last)[j],
        ) by {
            if j == r.len() {
                let y = r[i];
                assert(r.to_set().contains(y));
                assert(t.to_set().insert(x).contains(y));
                if y != x {
                    let k = choose|k: int| 0 <= k < t.len() && t[k] == y;
                    assert(str_lt(q[k], q[q.len() - 1]));
                }
            } else {
                assert(r.push(last)[i] == r[i]);
                assert(r.push(last)[j] == r[j]);
            }
        }
    }
}

/// Two ascending sequences without repetition that hold the same elements
/// are the same.
pub proof fn lemma_strictly_sorted_unique(a: Seq<Seq<char>>, b: Seq<Seq<char>>)
    requires
        is_strictly_sorted(a),
        is_strictly_sorted(b),
        a.to_set() == b.to_set(),
    ensures
        a == b,
    decreases a.len(),
{
    if a.len() == 0 {
        if b.len() > 0 {
            assert(b.to_set().contains(b[0]));
        }
        assert(a =~= b);
    } else if b.len() == 0 {
        assert(a.to_set().contains(a[0]));
    } else {
        assert(a.to_set().contains(a[0]));
        assert(b.to_set().contains(b[0]));
        let ka = choose|k: int| 0 <= k < b.len() && b[k] == a[0];
        let kb = choose|k: int| 0 <= k < a.len() && a[k] == b[0];
        if ka > 0 && kb > 0 {
            assert(str_lt(b[0], b[ka]));
            assert(str_lt(a[0], a[kb]));
            lemma_str_lt_asymmetric(a[0], b[0]);
        } else if ka > 0 {
            assert(str_lt(b[0], b[ka]));
            lemma_str_lt_irreflexive(a[0]);
        } else if kb > 0 {
            assert(str_lt(a[0], a[kb]));
            lemma_str_lt_irreflexive(b[0]);
        }
        assert(a[0] == b[0]);
        let a1 = a.drop_first();
        let b1 = b.drop_first();
        assert forall|x: Seq<char>| a1.to_set().contains(x) <==> b1.to_set().contains(x) by {
            if a1.to_set().contains(x) {
                let k = choose|k: int| 0 <= k < a1.len() && a1[k] == x;
                assert(a[k + 1] == x);
                assert(str_lt(a[0], a[k + 1]));
                lemma_str_lt_irreflexive(x);
                assert(a.to_set().contains(x));
                let m = choose|m: int| 0 <= m < b.len() && b[m] == x;
                assert(m != 0);
                assert(b1[m - 1] == x);
            }
            if b1.to_set().contains(x) {
                let k = choose|k: int| 0 <= k < b1.len() && b1[k] == x;
                assert(b[k + 1] == x);
                assert(str_lt(b[0], b[k + 1]));
                lemma_str_lt_irreflexive(x);
                assert(b.to_set().contains(x));
                let m = choose|m: int| 0 <= m < a.len() && a[m] == x;
                assert(m != 0);
                assert(a1[m - 1] == x);
            }
        }
        assert(a1.to_set() =~= b1.to_set());
        lemma_strictly_sorted_unique(a1, b1);
        assert(a =~= seq![a[0]] + a1);
        assert(b =~= seq![b[0]] + b1);
    }
}

// ---------------------------------------------------------------------------
// Importing objects
// ---------------------------------------------------------------------------

/// The characters of `text` before its first `#`, without white space at
/// either end.
fn uncommented_trimmed(text: &str) -> (r: Vec<char>)
    ensures
        r@ == trimmed(before_first(text@, '#')),
{
    let chars = chars_of(text);
    let uncommented = before_first_chars(&chars, '#');
    trim_chars(&uncommented)
}

/// `m` with `prefix` added, for each of `origins` in turn that is an AS
/// number in public use once cleaned, to the routes of the cleaned origin in
/// `source`.
pub open spec fn add_routes(
    m: Map<StoreKey, Seq<Seq<char>>>,
    source: Seq<char>,
    origins: Seq<Seq<char>>,
    prefix: Seq<char>,
) -> Map<StoreKey, Seq<Seq<char>>>
    decreases origins.len(),
{
    if origins.len() == 0 {
        m
    } else {
        let prior = add_routes(m, source, origins.drop_last(), prefix);
        let key = (source, clean_text(origins.last()));
        if !is_public_asn_name(clean_text(origins.last())) {
            prior
        } else {
            prior.insert(
                key,
                if prior.contains_key(key) {
                    prior[key].push(prefix)
                } else {
                    seq![prefix]
                },
            )
        }
    }
}

/// The class of a parsed object: the name of its first attribute.
pub open spec fn object_class(attrs: Seq<(Seq<char>, Seq<Seq<char>>)>) -> Seq<char> {
    attrs[0].0
}

/// The name of a parsed object: the first content line of its first
/// attribute, cleaned.
pub open spec fn object_name(attrs: Seq<(Seq<char>, Seq<Seq<char>>)>) -> Seq<char> {
    clean_text(attrs[0].1[0])
}

/// The prefix of a route object: the first content line of its first
/// attribute, cut at its first `#` and trimmed, in canonical form; none
/// where that is not an IP prefix in public use.
pub open spec fn route_prefix(attrs: Seq<(Seq<char>, Seq<Seq<char>>)>) -> Option<Seq<char>> {
    normalized_prefix(trimmed(before_first(attrs[0].1[0], '#')))
}

/// The AS-set that an `as-set` object describes.
pub open spec fn as_set_of(attrs: Seq<(Seq<char>, Seq<Seq<char>>)>) -> AsSetView {
    let tokens = member_tokens(values_named(attrs, "members"@));
    (sorted_seq_of(asn_members(tokens).to_set()), sorted_seq_of(as_set_members(tokens).to_set()))
}

/// The AS-sets after an object is imported into `source`: an `as-set` object
/// is stored under its name, in place of any held under it.
pub open spec fn as_sets_after_import(
    m: Map<StoreKey, AsSetView>,
    source: Seq<char>,
    attrs: Seq<(Seq<char>, Seq<Seq<char>>)>,
) -> Map<StoreKey, AsSetView> {
    if object_class(attrs) == "as-set"@ {
        m.insert((source, object_name(attrs)), as_set_of(attrs))
    } else {
        m
    }
}

/// The routes after an object is imported into `source`: a `route` or
/// `route6` object whose prefix is in public use adds the prefix, in
/// canonical form, to the routes of each of its origins.
pub open spec fn routes_after_import(
    m: Map<StoreKey, Seq<Seq<char>>>,
    source: Seq<char>,
    attrs: Seq<(Seq<char>, Seq<Seq<char>>)>,
) -> Map<StoreKey, Seq<Seq<char>>> {
    if object_class(attrs) == "route"@ || object_class(attrs) == "route6"@ {
        match route_prefix(attrs) {
            Some(prefix) => add_routes(m, source, values_named(attrs, "origin"@), prefix),
            None => m,
        }
    } else {
        m
    }
}

/// `text` with the blank line that closes an RPSL object added, where it
/// ends with a line's newline but not with a blank line; unchanged otherwise.
pub open spec fn with_closing_blank_line(text: Seq<char>) -> Seq<char> {
    if text.len() >= 1 && text.last() == '\n' && !(text.len() >= 2 && text[text.len() - 2] == '\n') {
        text.push('\n')
    } else {
        text
    }
}

/// Whether the store takes the object `text`: it parses, and its first
/// attribute has content.
pub open spec fn import_accepted(text: Seq<char>) -> bool {
    match rpsl_parse(text) {
        Ok(attrs) => attrs[0].1.len() > 0,
        Err(_) => false,
    }
}

/// The AS-sets and routes of `store` after the object `text` is imported
/// into `source`.
pub open spec fn store_after_import(store: &DataStore, source: Seq<char>, text: Seq<char>) -> (
    Map<StoreKey, AsSetView>,
    Map<StoreKey, Seq<Seq<char>>>,
) {
    match rpsl_parse(text) {
        Ok(attrs) => if attrs[0].1.len() > 0 {
            (
                as_sets_after_import(store.as_sets(), source, attrs),
                routes_after_import(store.routes(), source, attrs),
            )
        } else {
            (store.as_sets(), store.routes())
        },
        Err(_) => (store.as_sets(), store.routes()),
    }
}

/// The message of an error, or nothing.
pub open spec fn error_text(r: Result<(), String>) -> Seq<char> {
    match r {
        Ok(_) => Seq::empty(),
        Err(e) => e@,
    }
}

/// The contents of optional routes.
pub open spec fn opt_routes_view(r: Option<AsRoutes>) -> Option<Seq<Seq<char>>> {
    match r {
        Some(x) => Some(x@),
        None => None,
    }
}

/// The contents of an optional AS-set.
pub open spec fn opt_as_set_view(r: Option<AsSet>) -> Option<AsSetView> {
    match r {
        Some(x) => Some(x@),
        None => None,
    }
}

/// The strings of `v` that are not in `exclude`, in order.
fn without_strings(v: &Vec<String>, exclude: &[String]) -> (r: Vec<String>)
    ensures
        views(r@) == names_without(views(v@), views(exclude@)),
{
    let mut r: Vec<String> = Vec::new();
    let mut i: usize = 0;
    while i < v.len()
        invariant
            i <= v@.len(),
            views(r@) == names_without(views(v@).take(i as int), views(exclude@)),
        decreases v@.len() - i,
    {
        let ghost prefix = views(v@).take(i + 1);
        assert(prefix.drop_last() =~= views(v@).take(i as int));
        assert(prefix.last() == v@[i as int]@);
        if !contains_string(exclude, &v[i]) {
            let ghost before = r@;
            let x = v[i].clone();
            r.push(x);
            assert(views(r@) =~= views(before).push(x@));
        }
        i = i + 1;
    }
    assert(views(v@).take(v@.len() as int) =~= views(v@));
    r
}

proof fn lemma_names_without_nothing(names: Seq<Seq<char>>)
    ensures
        names_without(names, Seq::empty()) == names,
    decreases names.len(),
{
    if names.len() > 0 {
        lemma_names_without_nothing(names.drop_last());
        assert(names.drop_last().push(names.last()) =~= names);
    }
}

/// Puts `e` into `sorted` after every entry of at least its priority.
fn insert_sorted(sorted: &mut Vec<(String, DataSource)>, e: (String, DataSource))
    ensures
        entry_views(final(sorted)@) == insert_by_priority(entry_views(old(sorted)@), (e.0@, e.1)),
{
    let ghost s = entry_views(sorted@);
    let mut p: usize = sorted.len();
    while p > 0 && sorted[p - 1].1.priority < e.1.priority
        invariant
            p <= sorted@.len(),
            s == entry_views(sorted@),
            forall|k: int| p <= k < s.len() ==> (#[trigger] s[k]).1.priority < e.1.priority,
        decreases p,
    {
        p = p - 1;
    }
    proof {
        lemma_insert_by_priority_at(s, (e.0@, e.1), p as int);
    }
    let ghost ev = (e.0@, e.1);
    sorted.insert(p, e);
    assert(entry_views(sorted@) =~= s.insert(p as int, ev));
}

// ---------------------------------------------------------------------------
// The store
// ---------------------------------------------------------------------------

/// A key of the store's AS-set and route tables: a data source and a name.
pub type StoreKey = (Seq<char>, Seq<char>);

/// The in-memory store: the registered data sources, and per data source its
/// AS-sets by name and the prefixes of its route objects by origin AS.
pub struct DataStore {
    data_sources: Vec<(String, DataSource)>,
    tables: Vec<SourceTables>,
}

/// The data sources of `v` with the contents of their names.
spec fn entry_views(v: Seq<(String, DataSource)>) -> Seq<SourceEntry> {
    v.map_values(|e: (String, DataSource)| (e.0@, e.1))
}

/// Whether a table for `source` is among `tables`.
spec fn has_table(tables: Seq<SourceTables>, source: Seq<char>) -> bool {
    exists|i: int| 0 <= i < tables.len() && (#[trigger] tables[i]).source@ == source
}

/// The place of the table for `source` among `tables`.
spec fn table_at(tables: Seq<SourceTables>, source: Seq<char>) -> int {
    choose|i: int| 0 <= i < tables.len() && (#[trigger] tables[i]).source@ == source
}

/// The AS-sets of all `tables`, by data source and name.
spec fn tables_as_sets(tables: Seq<SourceTables>) -> Map<StoreKey, AsSetView> {
    Map::new(
        |k: StoreKey| has_table(tables, k.0) && tables[table_at(tables, k.0)].as_set_view().contains_key(k.1),
        |k: StoreKey| tables[table_at(tables, k.0)].as_set_view()[k.1],
    )
}

/// The routes of all `tables`, by data source and origin.
spec fn tables_routes(tables: Seq<SourceTables>) -> Map<StoreKey, Seq<Seq<char>>> {
    Map::new(
        |k: StoreKey| has_table(tables, k.0) && tables[table_at(tables, k.0)].route_view().contains_key(k.1),
        |k: StoreKey| tables[table_at(tables, k.0)].route_view()[k.1],
    )
}

spec fn unique_sources(tables: Seq<SourceTables>) -> bool {
    forall|i: int, j: int|
        0 <= i < j < tables.len() ==> (#[trigger] tables[i]).source@ != (#[trigger] tables[j]).source@
}

spec fn all_wf(tables: Seq<SourceTables>) -> bool {
    forall|i: int| 0 <= i < tables.len() ==> (#[trigger] tables[i]).wf()
}

proof fn lemma_push_table(tables: Seq<SourceTables>, t: SourceTables)
    requires
        unique_sources(tables),
        !has_table(tables, t.source@),
        t.as_set_view() == Map::<Seq<char>, AsSetView>::empty(),
        t.route_view() == Map::<Seq<char>, Seq<Seq<char>>>::empty(),
    ensures
        unique_sources(tables.push(t)),
        tables_as_sets(tables.push(t)) == tables_as_sets(tables),
        tables_routes(tables.push(t)) == tables_routes(tables),
        has_table(tables.push(t), t.source@),
        table_at(tables.push(t), t.source@) == tables.len(),
{
    let u = tables.push(t);
    assert(unique_sources(u)) by {
        assert forall|a: int, b: int| 0 <= a < b < u.len() implies (#[trigger] u[a]).source@ != (
        #[trigger] u[b]).source@ by {
            if b < tables.len() {
                assert(tables[a].source@ != tables[b].source@);
            } else {
                assert(u[a] == tables[a]);
            }
        }
    }
    lemma_table_at(u, t.source@, tables.len() as int);
    assert forall|src: Seq<char>| src != t.source@ implies (has_table(u, src) == has_table(tables, src)
        && (has_table(tables, src) ==> table_at(u, src) == table_at(tables, src))) by {
        if has_table(u, src) {
            let k = table_at(u, src);
            assert(u[k].source@ == src);
            assert(k < tables.len());
            assert(tables[k] == u[k]);
        }
        if has_table(tables, src) {
            let k = table_at(tables, src);
            assert(u[k] == tables[k]);
            lemma_table_at(u, src, k);
        }
    }
    assert(tables_as_sets(u) =~= tables_as_sets(tables));
    assert(tables_routes(u) =~= tables_routes(tables));
}

proof fn lemma_update_table(tables: Seq<SourceTables>, i: int, t: SourceTables)
    requires
        unique_sources(tables),
        0 <= i < tables.len(),
        t.source@ == tables[i].source@,
    ensures
        unique_sources(tables.update(i, t)),
        forall|k: StoreKey| #[trigger] tables_as_sets(tables.update(i, t)).contains_key(k) == if k.0 == t.source@ {
            t.as_set_view().contains_key(k.1)
        } else {
            tables_as_sets(tables).contains_key(k)
        },
        forall|k: StoreKey| #[trigger] tables_as_sets(tables.update(i, t)).contains_key(k) ==> tables_as_sets(tables.update(i, t))[k] == if k.0 == t.source@ {
            t.as_set_view()[k.1]
        } else {
            tables_as_sets(tables)[k]
        },
        forall|k: StoreKey| #[trigger] tables_routes(tables.update(i, t)).contains_key(k) == if k.0 == t.source@ {
            t.route_view().contains_key(k.1)
        } else {
            tables_routes(tables).contains_key(k)
        },
        forall|k: StoreKey| #[trigger] tables_routes(tables.update(i, t)).contains_key(k) ==> tables_routes(tables.update(i, t))[k] == if k.0 == t.source@ {
            t.route_view()[k.1]
        } else {
            tables_routes(tables)[k]
        },
{
    let u = tables.update(i, t);
    assert(unique_sources(u)) by {
        assert forall|a: int, b: int| 0 <= a < b < u.len() implies (#[trigger] u[a]).source@ != (
        #[trigger] u[b]).source@ by {
            assert(tables[a].source@ != tables[b].source@);
        }
    }
    lemma_table_at(u, t.source@, i);
    assert forall|src: Seq<char>| src != t.source@ implies (has_table(u, src) == has_table(tables, src)
        && (has_table(tables, src) ==> table_at(u, src) == table_at(tables, src) && u[table_at(u, src)] == tables[table_at(tables, src)])) by {
        if has_table(u, src) {
            let k = table_at(u, src);
            assert(u[k].source@ == src);
            assert(k != i);
            assert(tables[k] == u[k]);
        }
        if has_table(tables, src) {
            let k = table_at(tables, src);
            assert(k != i);
            assert(u[k] == tables[k]);
            lemma_table_at(u, src, k);
        }
    }
}

impl DataStore {
    #[verifier::type_invariant]
    spec fn well_formed(&self) -> bool {
        &&& unique_names(self.source_entries())
        &&& all_wf(self.tables@)
        &&& unique_sources(self.tables@)
    }

    /// The store's internal consistency: no data source registered twice, no
    /// data source with two tables, every table consistent.
    pub closed spec fn valid(&self) -> bool {
        self.well_formed()
    }

    /// The registered data sources with their names, in the order in which
    /// they were first registered.
    pub closed spec fn source_entries(&self) -> Seq<SourceEntry> {
        entry_views(self.data_sources@)
    }

    /// The registered data sources by name.
    pub open spec fn data_sources(&self) -> Map<Seq<char>, DataSource> {
        entries_map(self.source_entries())
    }

    /// The AS-sets, by data source and name.
    pub closed spec fn as_sets(&self) -> Map<StoreKey, AsSetView> {
        tables_as_sets(self.tables@)
    }

    /// The prefixes of route objects, by data source and origin AS.
    pub closed spec fn routes(&self) -> Map<StoreKey, Seq<Seq<char>>> {
        tables_routes(self.tables@)
    }

    /// The names of the registered data sources that are not in `exclude`,
    /// highest priority first, sources of equal priority in the order of their
    /// registration.
    pub open spec fn sorted_sources(&self, exclude: Seq<Seq<char>>) -> Seq<Seq<char>> {
        names_of(sort_by_priority(entries_without(self.source_entries(), exclude)))
    }

    /// The names of the registered data sources that are not in `exclude`,
    /// highest priority first.
    pub fn get_sorted_data_sources(&self, exclude: &[String]) -> (r: Vec<String>)
        ensures
            views(r@) == self.sorted_sources(views(exclude@)),
    {
        let ghost ex = views(exclude@);
        let ghost entries = self.source_entries();
        let mut sorted: Vec<(String, DataSource)> = Vec::new();
        let mut i: usize = 0;
        while i < self.data_sources.len()
            invariant
                i <= entries.len(),
                entries == self.source_entries(),
                ex == views(exclude@),
                entry_views(sorted@) == sort_by_priority(entries_without(entries.take(i as int), ex)),
            decreases entries.len() - i,
        {
            let name = &self.data_sources[i].0;
            let ghost prefix = entries.take(i + 1);
            assert(prefix.drop_last() =~= entries.take(i as int));
            assert(prefix.last() == entries[i as int]);
            assert(entries[i as int] == (self.data_sources@[i as int].0@, self.data_sources@[i as int].1));
            let ghost w = entries_without(entries.take(i as int), ex);
            if !contains_string(exclude, name) {
                let e = (name.clone(), self.data_sources[i].1);
                insert_sorted(&mut sorted, e);
                assert(entries_without(prefix, ex) == w.push(entries[i as int]));
                assert(w.push(entries[i as int]).drop_last() =~= w);
            } else {
                assert(entries_without(prefix, ex) == w);
            }
            i = i + 1;
        }
        assert(entries.take(entries.len() as int) =~= entries);
        let mut r: Vec<String> = Vec::new();
        let mut k: usize = 0;
        while k < sorted.len()
            invariant
                k <= sorted@.len(),
                views(r@) == names_of(entry_views(sorted@)).take(k as int),
            decreases sorted@.len() - k,
        {
            let ghost before = r@;
            let x = sorted[k].0.clone();
            r.push(x);
            assert(views(r@) =~= views(before).push(x@));
            k = k + 1;
            assert(views(r@) =~= names_of(entry_views(sorted@)).take(k as int));
        }
        assert(names_of(entry_views(sorted@)).take(sorted@.len() as int) =~= names_of(entry_views(sorted@)));
        r
    }

    /// The AS-set `name` of `source`, if the store holds it.
    fn lookup_as_set(&self, source: &String, name: &str) -> (r: Option<&AsSet>)
        ensures
            match r {
                Some(a) => self.as_sets().contains_key((source@, name@)) && a@ == self.as_sets()[(source@, name@)],
                None => !self.as_sets().contains_key((source@, name@)),
            },
    {
        proof { use_type_invariant(self); }
        match find_table(&self.tables, source) {
            Some(i) => {
                let r = self.tables[i].as_sets.get(name);
                assert(self.tables@[i as int].as_set_view().contains_key(name@) == self.tables@[i as int].as_sets@.contains_key(name@));
                r
            },
            None => None,
        }
    }

    /// The prefixes of the routes of `asn` in `source`, if the store holds any.
    fn lookup_routes(&self, source: &String, asn: &str) -> (r: Option<&AsRoutes>)
        ensures
            match r {
                Some(a) => self.routes().contains_key((source@, asn@)) && a@ == self.routes()[(source@, asn@)],
                None => !self.routes().contains_key((source@, asn@)),
            },
    {
        proof { use_type_invariant(self); }
        match find_table(&self.tables, source) {
            Some(i) => {
                let t = &self.tables[i];
                assert(t.wf());
                match t.route_slots.get(asn) {
                    Some(slot) => {
                        assert(t.route_slots@.contains_key(asn@));
                        Some(&t.route_lists[*slot])
                    },
                    None => None,
                }
            },
            None => None,
        }
    }

    /// The routes of `asn` in the first of `data_sources` that has routes for
    /// it.
    pub fn query_asn(&self, data_sources: Vec<String>, asn: String) -> (r: Option<AsRoutes>)
        ensures
            opt_routes_view(r) == first_found(self.routes(), views(data_sources@), asn@),
    {
        let ghost srcs = views(data_sources@);
        assert(srcs.skip(0) =~= srcs);
        let mut i: usize = 0;
        while i < data_sources.len()
            invariant
                i <= data_sources@.len(),
                srcs == views(data_sources@),
                first_found(self.routes(), srcs, asn@) == first_found(self.routes(), srcs.skip(i as int), asn@),
            decreases data_sources@.len() - i,
        {
            let ghost rest = srcs.skip(i as int);
            assert(rest[0] == srcs[i as int]);
            assert(rest.drop_first() =~= srcs.skip(i + 1));
            match self.lookup_routes(&data_sources[i], asn.as_str()) {
                Some(routes) => {
                    return Some(routes.duplicate());
                },
                None => {},
            }
            i = i + 1;
        }
        assert(srcs.skip(i as int).len() == 0);
        None
    }

    /// The data sources that an AS-set query asks: those requested, or, where
    /// none are, all registered ones by priority; without those excluded.
    pub open spec fn query_sources(&self, requested: Seq<Seq<char>>, exclude: Seq<Seq<char>>) -> Seq<Seq<char>> {
        if requested.len() == 0 {
            self.sorted_sources(exclude)
        } else {
            names_without(requested, exclude)
        }
    }

    /// What an AS-set query for `name` answers: the AS-set under the name in
    /// upper case, in the first of the asked data sources that has it.
    pub open spec fn as_set_answer(&self, requested: Seq<Seq<char>>, name: Seq<char>, exclude: Seq<Seq<char>>) -> Option<AsSetView> {
        first_found(self.as_sets(), self.query_sources(requested, exclude), unicode_uppercase(name))
    }

    /// The AS-set `as_set` (taken in upper case) from the first data source
    /// that has it, among `data_sources`, or among all registered data sources
    /// by priority where `data_sources` is empty; data sources in
    /// `ignore_datasource` are not asked.
    pub fn query_as_set(&self, data_sources: Vec<String>, as_set: String, ignore_datasource: &[String]) -> (r: Option<AsSet>)
        ensures
            opt_as_set_view(r) == self.as_set_answer(views(data_sources@), as_set@, views(ignore_datasource@)),
            is_ascii_text(as_set@) ==> opt_as_set_view(r) == first_found(
                self.as_sets(),
                self.query_sources(views(data_sources@), views(ignore_datasource@)),
                ascii_uppercase(as_set@),
            ),
    {
        let datasources: Vec<String> = if data_sources.len() == 0 {
            self.get_sorted_data_sources(ignore_datasource)
        } else {
            without_strings(&data_sources, ignore_datasource)
        };
        let name = uppercase(as_set.as_str());
        let ghost srcs = views(datasources@);
        assert(srcs.skip(0) =~= srcs);
        assert(srcs == self.query_sources(views(data_sources@), views(ignore_datasource@)));
        let mut i: usize = 0;
        while i < datasources.len()
            invariant
                i <= datasources@.len(),
                srcs == views(datasources@),
                srcs == self.query_sources(views(data_sources@), views(ignore_datasource@)),
                name@ == unicode_uppercase(as_set@),
                is_ascii_text(as_set@) ==> name@ == ascii_uppercase(as_set@),
                first_found(self.as_sets(), srcs, name@) == first_found(self.as_sets(), srcs.skip(i as int), name@),
            decreases datasources@.len() - i,
        {
            let ghost rest = srcs.skip(i as int);
            assert(rest[0] == srcs[i as int]);
            assert(rest.drop_first() =~= srcs.skip(i + 1));
            match self.lookup_as_set(&datasources[i], name.as_str()) {
                Some(set) => {
                    return Some(set.duplicate());
                },
                None => {},
            }
            i = i + 1;
        }
        assert(srcs.skip(i as int).len() == 0);
        None
    }

    /// The AS numbers that AS-set `as_set` resolves to, following member
    /// AS-sets `depth` levels deep. An AS-set already in `visited` resolves to
    /// nothing; otherwise it is looked up in the data sources not in `exclude`
    /// by priority (in all of them, where that leaves none), and its members
    /// are resolved with it added to `visited`, each on its own.
    pub open spec fn resolve_as_set(
        &self,
        as_set: Seq<char>,
        depth: nat,
        visited: Seq<Seq<char>>,
        exclude: Seq<Seq<char>>,
    ) -> Seq<Seq<char>>
        decreases depth, 0nat,
    {
        if visited.contains(as_set) {
            Seq::empty()
        } else {
            let members = match self.as_set_answer(self.sorted_sources(exclude), as_set, Seq::empty()) {
                Some(m) => m,
                None => (Seq::empty(), Seq::empty()),
            };
            if depth > 0 {
                members.0 + self.resolve_members(members.1, (depth - 1) as nat, visited.push(as_set), exclude)
            } else {
                members.0
            }
        }
    }

    /// The AS numbers that each of `sets` resolves to, in order.
    pub open spec fn resolve_members(
        &self,
        sets: Seq<Seq<char>>,
        depth: nat,
        visited: Seq<Seq<char>>,
        exclude: Seq<Seq<char>>,
    ) -> Seq<Seq<char>>
        decreases depth, sets.len() + 1,
    {
        if sets.len() == 0 {
            Seq::empty()
        } else {
            self.resolve_members(sets.drop_last(), depth, visited, exclude) + self.resolve_as_set(
                sets.last(),
                depth,
                visited,
                exclude,
            )
        }
    }

    /// The AS numbers that `as_set` resolves to, with `ignore_as_sets`
    /// already visited; `as_set` is added to `ignore_as_sets` unless it is
    /// there.
    pub fn _query_as_set_recursive(
        &self,
        as_set: String,
        depth: u32,
        ignore_as_sets: &mut Vec<String>,
        ignore_datasource: &Vec<String>,
    ) -> (r: Option<Vec<String>>)
        ensures
            r is Some,
            views(r.unwrap()@) == self.resolve_as_set(
                as_set@,
                depth as nat,
                views(old(ignore_as_sets)@),
                views(ignore_datasource@),
            ),
            views(final(ignore_as_sets)@) == if views(old(ignore_as_sets)@).contains(as_set@) {
                views(old(ignore_as_sets)@)
            } else {
                views(old(ignore_as_sets)@).push(as_set@)
            },
        decreases depth,
    {
        let ghost visited = views(ignore_as_sets@);
        let ghost ex = views(ignore_datasource@);
        if contains_string(ignore_as_sets, &as_set) {
            return Some(Vec::new());
        }
        let ghost a = as_set@;
        ignore_as_sets.push(as_set.clone());
        assert(views(ignore_as_sets@) =~= visited.push(a));
        let dummy = AsSet::new();
        let data_sources = self.get_sorted_data_sources(ignore_datasource);
        let no_exclusion: Vec<String> = Vec::new();
        let res = match self.query_as_set(data_sources, as_set, &no_exclusion) {
            Some(found) => found,
            None => dummy,
        };
        proof {
            lemma_names_without_nothing(self.sorted_sources(ex));
            assert(views(no_exclusion@) =~= Seq::<Seq<char>>::empty());
        }
        let mut as_list = clone_strings(&res.asns);
        if depth > 0 {
            let mut i: usize = 0;
            while i < res.as_sets.len()
                invariant
                    i <= res@.1.len(),
                    views(as_list@) == res@.0 + self.resolve_members(
                        res@.1.take(i as int),
                        (depth - 1) as nat,
                        visited.push(a),
                        ex,
                    ),
                    views(ignore_as_sets@) == visited.push(a),
                    ex == views(ignore_datasource@),
                    depth > 0,
                decreases res@.1.len() - i,
            {
                let mut branch_visited = clone_strings(ignore_as_sets);
                let sub = match self._query_as_set_recursive(
                    res.as_sets[i].clone(),
                    depth - 1,
                    &mut branch_visited,
                    ignore_datasource,
                ) {
                    Some(found) => found,
                    None => Vec::new(),
                };
                let ghost before = views(as_list@);
                extend_strings(&mut as_list, &sub);
                proof {
                    let t = res@.1.take(i + 1);
                    assert(t.drop_last() =~= res@.1.take(i as int));
                    assert(t.last() == res@.1[i as int]);
                    assert(views(as_list@) =~= res@.0 + self.resolve_members(
                        t,
                        (depth - 1) as nat,
                        visited.push(a),
                        ex,
                    ));
                }
                i = i + 1;
            }
            assert(res@.1.take(res@.1.len() as int) =~= res@.1);
        }
        Some(as_list)
    }

    /// The AS numbers that `as_set` resolves to, following member AS-sets
    /// `depth` levels deep; AS-sets in `ignore_as_sets` resolve to nothing.
    pub fn query_as_set_recursive(
        &self,
        as_set: String,
        depth: u32,
        ignore_as_sets: Vec<String>,
        ignore_datasource: &Vec<String>,
    ) -> (r: Option<Vec<String>>)
        ensures
            r is Some,
            views(r.unwrap()@) == self.resolve_as_set(
                as_set@,
                depth as nat,
                views(ignore_as_sets@),
                views(ignore_datasource@),
            ),
    {
        let mut visited = clone_strings(&ignore_as_sets);
        self._query_as_set_recursive(as_set, depth, &mut visited, ignore_datasource)
    }

    /// The prefixes of the routes of each of `asns`, in order, each taken
    /// from the first of `sources` that has routes for it.
    pub open spec fn prefixes_of(&self, asns: Seq<Seq<char>>, sources: Seq<Seq<char>>) -> Seq<Seq<char>>
        decreases asns.len(),
    {
        if asns.len() == 0 {
            Seq::empty()
        } else {
            self.prefixes_of(asns.drop_last(), sources) + match first_found(self.routes(), sources, asns.last()) {
                Some(p) => p,
                None => Seq::empty(),
            }
        }
    }

    /// The prefixes of the routes of the AS numbers that `as_set` resolves
    /// to, each taken from the first data source by priority, not in
    /// `ignore_datasource`, that has routes for it.
    pub fn query_as_set_prefixes_recursive(
        &self,
        as_set: String,
        depth: u32,
        ignore_as_sets: Vec<String>,
        ignore_datasource: &Vec<String>,
    ) -> (r: Option<Vec<String>>)
        ensures
            r is Some,
            views(r.unwrap()@) == self.prefixes_of(
                self.resolve_as_set(as_set@, depth as nat, views(ignore_as_sets@), views(ignore_datasource@)),
                self.sorted_sources(views(ignore_datasource@)),
            ),
    {
        let as_list = match self.query_as_set_recursive(as_set, depth, ignore_as_sets, ignore_datasource) {
            Some(list) => list,
            None => Vec::new(),
        };
        let mut prefixes: Vec<String> = Vec::new();
        let data_sources = self.get_sorted_data_sources(ignore_datasource);
        let mut i: usize = 0;
        while i < as_list.len()
            invariant
                i <= as_list@.len(),
                views(prefixes@) == self.prefixes_of(views(as_list@).take(i as int), views(data_sources@)),
            decreases as_list@.len() - i,
        {
            let found = self.query_asn(clone_strings(&data_sources), as_list[i].clone());
            let routes = match found {
                Some(r) => r,
                None => {
                    let empty = AsRoutes { prefixes: Vec::new() };
                    assert(empty@ =~= Seq::<Seq<char>>::empty());
                    empty
                },
            };
            extend_strings(&mut prefixes, &routes.prefixes);
            proof {
                let t = views(as_list@).take(i + 1);
                assert(t.drop_last() =~= views(as_list@).take(i as int));
                assert(t.last() == as_list@[i as int]@);
            }
            i = i + 1;
        }
        assert(views(as_list@).take(as_list@.len() as int) =~= views(as_list@));
        Some(prefixes)
    }

    /// Imports one RPSL object into `data_source`. An object that does not
    /// parse, or whose first attribute has no content, is refused with an
    /// error and changes nothing; an `as-set` object is stored under its name;
    /// a `route` or `route6` object whose prefix is an IP prefix in public use
    /// adds that prefix, in canonical form, to the routes of each of its
    /// origins, cleaned of comments, outer white space and case (origins that
    /// are not then AS numbers in public use are passed over); other objects
    /// are passed over.
    pub fn import_object(&mut self, data_source: String, object_buf: String) -> (r: Result<(), String>)
        ensures
            final(self).valid(),
            final(self).source_entries() == old(self).source_entries(),
            r is Ok <==> import_accepted(object_buf@),
            final(self).as_sets() == store_after_import(old(self), data_source@, object_buf@).0,
            final(self).routes() == store_after_import(old(self), data_source@, object_buf@).1,
            match rpsl_parse(object_buf@) {
                Err(e) => {
                    &&& r is Err
                    &&& error_text(r) == "Error parsing obj: "@ + debug_quoted(object_buf@) + ", "@ + e
                    &&& final(self).as_sets() == old(self).as_sets()
                    &&& final(self).routes() == old(self).routes()
                },
                Ok(attrs) => if attrs[0].1.len() == 0 {
                    &&& r is Err
                    &&& error_text(r) == Seq::<char>::empty()
                    &&& final(self).as_sets() == old(self).as_sets()
                    &&& final(self).routes() == old(self).routes()
                } else {
                    &&& r is Ok
                    &&& final(self).as_sets() == as_sets_after_import(old(self).as_sets(), data_source@, attrs)
                    &&& final(self).routes() == routes_after_import(old(self).routes(), data_source@, attrs)
                },
            },
    {
        proof { use_type_invariant(&*self); }
        let r = self.import_parsed(data_source, object_buf);
        proof { use_type_invariant(&*self); }
        r
    }

    /// One step of importing a stream of objects into `data_source`: an
    /// object the stream yields is imported, with the blank line that closes
    /// an RPSL object added where it lacks one (as the last object of a dump
    /// does), and an error of the stream is handed back unchanged, leaving the
    /// store as it was. The import goes on while the steps succeed and stops at
    /// the first error.
    pub fn import_stream_item(&mut self, data_source: &str, item: Result<String, String>) -> (r: Result<(), String>)
        ensures
            final(self).valid(),
            final(self).source_entries() == old(self).source_entries(),
            match item {
                Err(e) => {
                    &&& r == Err::<(), String>(e)
                    &&& final(self).as_sets() == old(self).as_sets()
                    &&& final(self).routes() == old(self).routes()
                },
                Ok(object) => {
                    &&& (r is Ok <==> import_accepted(with_closing_blank_line(object@)))
                    &&& final(self).as_sets() == store_after_import(old(self), data_source@, with_closing_blank_line(object@)).0
                    &&& final(self).routes() == store_after_import(old(self), data_source@, with_closing_blank_line(object@)).1
                    &&& (r is Err ==> error_text(r) == match rpsl_parse(with_closing_blank_line(object@)) {
                        Err(e) => "Error parsing obj: "@ + debug_quoted(with_closing_blank_line(object@)) + ", "@ + e,
                        Ok(_) => Seq::<char>::empty(),
                    })
                },
            },
    {
        proof { use_type_invariant(&*self); }
        match item {
            Err(e) => Err(e),
            Ok(object) => {
                let mut object = object;
                let chars = chars_of(object.as_str());
                let n = chars.len();
                if n >= 1 && chars[n - 1] == '\n' && !(n >= 2 && chars[n - 2] == '\n') {
                    push_char(&mut object, '\n');
                }
                self.import_object(data_source.to_owned(), object)
            },
        }
    }

    fn import_parsed(&mut self, data_source: String, object_buf: String) -> (r: Result<(), String>)
        ensures
            final(self).source_entries() == old(self).source_entries(),
            r is Ok <==> import_accepted(object_buf@),
            final(self).as_sets() == store_after_import(old(self), data_source@, object_buf@).0,
            final(self).routes() == store_after_import(old(self), data_source@, object_buf@).1,
            match rpsl_parse(object_buf@) {
                Err(e) => {
                    &&& r is Err
                    &&& error_text(r) == "Error parsing obj: "@ + debug_quoted(object_buf@) + ", "@ + e
                },
                Ok(attrs) => attrs[0].1.len() == 0 ==> {
                    &&& r is Err
                    &&& error_text(r) == Seq::<char>::empty()
                },
            },
    {
        let parsed = parse_object(object_buf.as_str());
        let object = match parsed {
            Err(e) => {
                let mut message = String::new();
                push_str(&mut message, "Error parsing obj: ");
                let quoted = debug_text(object_buf.as_str());
                push_str(&mut message, quoted.as_str());
                push_str(&mut message, ", ");
                push_str(&mut message, e.as_str());
                assert(message@ =~= "Error parsing obj: "@ + debug_quoted(object_buf@) + ", "@ + e@);
                return Err(message);
            },
            Ok(o) => o,
        };
        let ghost attrs = object@;
        let first = &object.attributes[0];
        assert(first@ == attrs[0]);
        if first.values.len() == 0 {
            let r: Result<(), String> = Err(String::new());
            return r;
        }
        let obj_name = Self::clean_string(first.values[0].as_str());
        assert(obj_name@ == object_name(attrs));
        assert(first.name@ == object_class(attrs));
        if first.name == "as-set".to_owned() {
            let members = object.get("members");
            let (asns, assets) = Self::parse_members(members);
            let set = AsSet { asns, as_sets: assets };
            assert(set@ == as_set_of(attrs));
            proof {
                reveal_strlit("as-set");
                reveal_strlit("route");
                reveal_strlit("route6");
                assert("as-set"@ != "route"@ && "as-set"@ != "route6"@) by {
                    assert("as-set"@.len() != "route"@.len());
                    assert("as-set"@[5] != "route6"@[5]);
                }
            }
            self.store_as_set(&data_source, obj_name, set);
            assert(self.as_sets() == as_sets_after_import(old(self).as_sets(), data_source@, attrs));
            assert(self.routes() == routes_after_import(old(self).routes(), data_source@, attrs));
        } else if first.name == "route".to_owned() || first.name == "route6".to_owned() {
            let prefix = match normalize_prefix(&uncommented_trimmed(first.values[0].as_str())) {
                Some(p) => p,
                None => {
                    assert(self.routes() == routes_after_import(old(self).routes(), data_source@, attrs));
                    return Ok(());
                },
            };
            let origins = object.get("origin");
            let ghost start = self.routes();
            let mut j: usize = 0;
            while j < origins.len()
                invariant
                    j <= origins@.len(),
                    self.source_entries() == old(self).source_entries(),
                    self.as_sets() == old(self).as_sets(),
                    start == old(self).routes(),
                    self.routes() == add_routes(start, data_source@, views(origins@).take(j as int), prefix@),
                decreases origins@.len() - j,
            {
                let bare = uncommented_trimmed(origins[j].as_str());
                let asn = uppercase(string_of(bare.as_slice()).as_str());
                if is_public_asn(&chars_of(asn.as_str())) {
                    self.store_route(&data_source, asn, prefix.clone());
                }
                proof {
                    let t = views(origins@).take(j + 1);
                    assert(t.drop_last() =~= views(origins@).take(j as int));
                    assert(t.last() == origins@[j as int]@);
                }
                j = j + 1;
            }
            assert(views(origins@).take(origins@.len() as int) =~= views(origins@));
            assert(self.as_sets() == as_sets_after_import(old(self).as_sets(), data_source@, attrs));
            assert(self.routes() == routes_after_import(old(self).routes(), data_source@, attrs));
        } else {
            assert(self.as_sets() == as_sets_after_import(old(self).as_sets(), data_source@, attrs));
            assert(self.routes() == routes_after_import(old(self).routes(), data_source@, attrs));
        }
        Ok(())
    }

    /// Takes the tables out of the store, with a table for `source` among them
    /// (made empty where there was none), and where it stands.
    fn take_tables_for(&mut self, source: &String) -> (r: (Vec<SourceTables>, usize))
        ensures
            final(self).source_entries() == old(self).source_entries(),
            final(self).tables@.len() == 0,
            unique_sources(r.0@),
            all_wf(r.0@),
            r.1 < r.0@.len(),
            r.0@[r.1 as int].source@ == source@,
            tables_as_sets(r.0@) == old(self).as_sets(),
            tables_routes(r.0@) == old(self).routes(),
    {
        proof { use_type_invariant(&*self); }
        let mut tables: Vec<SourceTables> = Vec::new();
        std::mem::swap(&mut tables, &mut self.tables);
        match find_table(&tables, source) {
            Some(i) => (tables, i),
            None => {
                let t = SourceTables::new(source.clone());
                proof { lemma_push_table(tables@, t); }
                tables.push(t);
                let i = tables.len() - 1;
                (tables, i)
            },
        }
    }

    /// Stores `set` as the AS-set `name` of `source`, in place of any held
    /// under that name.
    fn store_as_set(&mut self, source: &String, name: String, set: AsSet)
        ensures
            final(self).source_entries() == old(self).source_entries(),
            final(self).as_sets() == old(self).as_sets().insert((source@, name@), set@),
            final(self).routes() == old(self).routes(),
    {
        proof { use_type_invariant(&*self); }
        let (mut tables, i) = self.take_tables_for(source);
        let ghost before = tables@;
        let ghost key = (source@, name@);
        let ghost value = set@;
        tables[i].insert_as_set(name, set);
        proof {
            assert(tables@ == before.update(i as int, tables@[i as int]));
            lemma_update_table(before, i as int, tables@[i as int]);
            assert forall|k: int| 0 <= k < tables@.len() implies (#[trigger] tables@[k]).wf() by {
                if k != i {
                    assert(tables@[k] == before[k]);
                }
            }
            assert(tables_as_sets(tables@) =~= tables_as_sets(before).insert(key, value));
            assert(tables_routes(tables@) =~= tables_routes(before));
        }
        self.tables = tables;
    }

    /// Adds `prefix` to the routes of `asn` in `source`.
    fn store_route(&mut self, source: &String, asn: String, prefix: String)
        ensures
            final(self).source_entries() == old(self).source_entries(),
            final(self).as_sets() == old(self).as_sets(),
            final(self).routes() == old(self).routes().insert(
                (source@, asn@),
                if old(self).routes().contains_key((source@, asn@)) {
                    old(self).routes()[(source@, asn@)].push(prefix@)
                } else {
                    seq![prefix@]
                },
            ),
    {
        proof { use_type_invariant(&*self); }
        let (mut tables, i) = self.take_tables_for(source);
        let ghost before = tables@;
        let ghost key = (source@, asn@);
        let ghost p = prefix@;
        tables[i].add_route(asn, prefix);
        proof {
            assert(tables@ == before.update(i as int, tables@[i as int]));
            lemma_update_table(before, i as int, tables@[i as int]);
            assert forall|k: int| 0 <= k < tables@.len() implies (#[trigger] tables@[k]).wf() by {
                if k != i {
                    assert(tables@[k] == before[k]);
                }
            }
            let old_routes = tables_routes(before);
            assert(old_routes.contains_key(key) == before[i as int].route_view().contains_key(key.1));
            assert(tables_as_sets(tables@) =~= tables_as_sets(before));
            assert(tables_routes(tables@) =~= old_routes.insert(
                key,
                if old_routes.contains_key(key) { old_routes[key].push(p) } else { seq![p] },
            ));
        }
        self.tables = tables;
    }

    /// `text` cut at its first `#`, trimmed and in upper case.
    pub fn clean_string(text: &str) -> (r: String)
        ensures
            r@ == clean_text(text@),
    {
        let t = string_of(uncommented_trimmed(text).as_slice());
        uppercase(t.as_str())
    }

    /// The AS numbers and the AS-set names among the entries of `members`
    /// lines (separated by commas or white space, comments after `#`
    /// dropped), in upper case, each list in ascending order without
    /// repetition.
    pub fn parse_members(members: Vec<String>) -> (r: (Vec<String>, Vec<String>))
        ensures
            views(r.0@) == sorted_seq_of(asn_members(member_tokens(views(members@))).to_set()),
            views(r.1@) == sorted_seq_of(as_set_members(member_tokens(views(members@))).to_set()),
    {
        let ghost ms = views(members@);
        let mut asns: Vec<String> = Vec::new();
        let mut assets: Vec<String> = Vec::new();
        let mut i: usize = 0;
        while i < members.len()
            invariant
                i <= ms.len(),
                ms == views(members@),
                views(asns@) == asn_members(member_tokens(ms.take(i as int))),
                views(assets@) == as_set_members(member_tokens(ms.take(i as int))),
            decreases ms.len() - i,
        {
            let ghost done = member_tokens(ms.take(i as int));
            let line = chars_of(members[i].as_str());
            let pieces = split_chars(&line, ',');
            let ghost all_pieces = char_vecs(pieces@);
            let mut j: usize = 0;
            while j < pieces.len()
                invariant
                    j <= pieces@.len(),
                    all_pieces == char_vecs(pieces@),
                    all_pieces == split_on(ms[i as int], ','),
                    views(asns@) == asn_members(done + piece_words(all_pieces.take(j as int))),
                    views(assets@) == as_set_members(done + piece_words(all_pieces.take(j as int))),
                decreases pieces@.len() - j,
            {
                let ghost so_far = done + piece_words(all_pieces.take(j as int));
                let uncommented = before_first_chars(&pieces[j], '#');
                let entries = words_of(&uncommented);
                let ghost ws = char_vecs(entries@);
                let mut k: usize = 0;
                while k < entries.len()
                    invariant
                        k <= entries@.len(),
                        ws == char_vecs(entries@),
                        views(asns@) == asn_members(so_far + ws.take(k as int)),
                        views(assets@) == as_set_members(so_far + ws.take(k as int)),
                    decreases entries@.len() - k,
                {
                    let ghost toks = so_far + ws.take(k as int);
                    let ghost toks2 = so_far + ws.take(k + 1);
                    assert(toks2.drop_last() =~= toks);
                    assert(toks2.last() == entries@[k as int]@);
                    let word = string_of(entries[k].as_slice());
                    let cleaned = uppercase(word.as_str());
                    let cleaned_chars = chars_of(cleaned.as_str());
                    let ghost c = cleaned@;
                    if is_asn(&cleaned_chars) {
                        if is_public_asn(&cleaned_chars) {
                            let ghost before = views(asns@);
                            asns.push(cleaned);
                            assert(views(asns@) =~= before + seq![c]);
                        } else {
                            assert(asn_members(toks2) =~= asn_members(toks));
                        }
                        assert(as_set_members(toks2) =~= as_set_members(toks));
                    } else if is_as_set(&cleaned_chars) {
                        let ghost before = views(assets@);
                        assets.push(cleaned);
                        assert(views(assets@) =~= before + seq![c]);
                        assert(asn_members(toks2) =~= asn_members(toks));
                    } else {
                        assert(asn_members(toks2) =~= asn_members(toks));
                        assert(as_set_members(toks2) =~= as_set_members(toks));
                    }
                    k = k + 1;
                }
                proof {
                    assert(ws.take(ws.len() as int) =~= ws);
                    let t = all_pieces.take(j + 1);
                    assert(t.drop_last() =~= all_pieces.take(j as int));
                    assert(t.last() == pieces@[j as int]@);
                    assert(piece_words(t) == piece_words(all_pieces.take(j as int)) + ws);
                    assert(so_far + ws =~= done + piece_words(t));
                }
                j = j + 1;
            }
            proof {
                assert(all_pieces.take(all_pieces.len() as int) =~= all_pieces);
                let t = ms.take(i + 1);
                assert(t.drop_last() =~= ms.take(i as int));
                assert(t.last() == ms[i as int]);
            }
            i = i + 1;
        }
        assert(ms.take(ms.len() as int) =~= ms);
        let ghost asn_tokens = asn_members(member_tokens(ms));
        let ghost set_tokens = as_set_members(member_tokens(ms));
        let sorted_asns = sorted_unique(asns);
        let sorted_sets = sorted_unique(assets);
        proof {
            lemma_strictly_sorted_unique(views(sorted_asns@), sorted_seq_of(asn_tokens.to_set()));
            lemma_strictly_sorted_unique(views(sorted_sets@), sorted_seq_of(set_tokens.to_set()));
        }
        (sorted_asns, sorted_sets)
    }

    /// An empty store.
    pub fn new() -> (r: Self)
        ensures
            r.valid(),
            r.source_entries() == Seq::<SourceEntry>::empty(),
            r.as_sets() == Map::<StoreKey, AsSetView>::empty(),
            r.routes() == Map::<StoreKey, Seq<Seq<char>>>::empty(),
    {
        let r = DataStore { data_sources: Vec::new(), tables: Vec::new() };
        assert(r.source_entries() =~= Seq::<SourceEntry>::empty());
        assert(r.as_sets() =~= Map::<StoreKey, AsSetView>::empty());
        assert(r.routes() =~= Map::<StoreKey, Seq<Seq<char>>>::empty());
        r
    }

    /// Registers the data source `name` with a serial and a priority, or sets
    /// them anew where it is registered already.
    pub fn new_data_source(&mut self, name: String, serial: u64, priority: i64)
        ensures
            final(self).valid(),
            final(self).source_entries() == entries_put(
                old(self).source_entries(),
                name@,
                DataSource { current_serial: serial, priority },
            ),
            final(self).data_sources() == old(self).data_sources().insert(
                name@,
                DataSource { current_serial: serial, priority },
            ),
            final(self).as_sets() == old(self).as_sets(),
            final(self).routes() == old(self).routes(),
    {
        self.put_data_source(name, DataSource { current_serial: serial, priority });
        proof { use_type_invariant(&*self); }
    }

    /// Sets the data source `name` to `ds`.
    #[verifier::loop_isolation(false)]
    fn put_data_source(&mut self, name: String, ds: DataSource)
        ensures
            final(self).source_entries() == entries_put(old(self).source_entries(), name@, ds),
            final(self).data_sources() == old(self).data_sources().insert(name@, ds),
            final(self).as_sets() == old(self).as_sets(),
            final(self).routes() == old(self).routes(),
    {
        proof { use_type_invariant(&*self); }
        let ghost old_entries = self.source_entries();
        let mut entries: Vec<(String, DataSource)> = Vec::new();
        std::mem::swap(&mut entries, &mut self.data_sources);
        assert(entry_views(entries@) == old_entries);
        let mut i: usize = 0;
        while i < entries.len()
            invariant
                i <= entries@.len(),
                entry_views(entries@) == old_entries,
                forall|k: int| 0 <= k < i ==> old_entries[k].0 != name@,
                self.tables@ == old(self).tables@,
            decreases entries@.len() - i,
        {
            if entries[i].0 == name {
                proof {
                    assert(old_entries[i as int].0 == name@);
                    lemma_replace_entry(old_entries, i as int, name@, ds);
                }
                let ghost n = name@;
                proof {
                    let k = choose|k: int| 0 <= k < old_entries.len() && (#[trigger] old_entries[k]).0 == n;
                    assert(old_entries[k].0 == old_entries[i as int].0);
                    assert(k == i);
                }
                entries.set(i, (name, ds));
                assert(entry_views(entries@) =~= old_entries.update(i as int, (n, ds)));
                self.data_sources = entries;
                assert(self.tables@ == old(self).tables@);
                return;
            }
            i = i + 1;
        }
        let ghost n = name@;
        proof {
            lemma_add_entry(old_entries, n, ds);
            assert(!exists|k: int| 0 <= k < old_entries.len() && (#[trigger] old_entries[k]).0 == n);
        }
        entries.push((name, ds));
        assert(entry_views(entries@) =~= old_entries.push((n, ds)));
        self.data_sources = entries;
        assert(self.tables@ == old(self).tables@);
    }

    /// The data source `name`, if it is registered.
    #[verifier::loop_isolation(false)]
    pub fn data_source(&self, name: &String) -> (r: Option<DataSource>)
        ensures
            r == if self.data_sources().contains_key(name@) {
                Some(self.data_sources()[name@])
            } else {
                None::<DataSource>
            },
    {
        proof { use_type_invariant(self); }
        let ghost entries = self.source_entries();
        let mut i: usize = 0;
        while i < self.data_sources.len()
            invariant
                i <= entries.len(),
                entries == self.source_entries(),
                forall|k: int| 0 <= k < i ==> entries[k].0 != name@,
            decreases entries.len() - i,
        {
            if self.data_sources[i].0 == *name {
                proof {
                    assert(entries[i as int].0 == name@);
                    lemma_entry_index(entries, i as int);
                }
                return Some(self.data_sources[i].1);
            }
            i = i + 1;
        }
        proof {
            if entries_map(entries).contains_key(name@) {
                let k = choose|k: int| 0 <= k < entries.len() && (#[trigger] entries[k]).0 == name@;
            }
        }
        None
    }

    /// Records `serial` as the current serial of the data source `name`; a
    /// data source not registered is registered with the default serial and
    /// priority instead.
    pub fn record_serial(&mut self, name: String, serial: u64)
        ensures
            final(self).valid(),
            final(self).source_entries() == entries_put(
                old(self).source_entries(),
                name@,
                if old(self).data_sources().contains_key(name@) {
                    DataSource { current_serial: serial, priority: old(self).data_sources()[name@].priority }
                } else {
                    DataSource { current_serial: 0, priority: 0 }
                },
            ),
            final(self).data_sources() == old(self).data_sources().insert(
                name@,
                if old(self).data_sources().contains_key(name@) {
                    DataSource { current_serial: serial, priority: old(self).data_sources()[name@].priority }
                } else {
                    DataSource { current_serial: 0, priority: 0 }
                },
            ),
            final(self).as_sets() == old(self).as_sets(),
            final(self).routes() == old(self).routes(),
    {
        let ds = match self.data_source(&name) {
            Some(current) => DataSource { current_serial: serial, priority: current.priority },
            None => DataSource::default(),
        };
        self.put_data_source(name, ds);
        proof { use_type_invariant(&*self); }
    }
}

impl Default for DataStore {
    fn default() -> (r: Self)
        ensures
            r.data_sources() == Map::<Seq<char>, DataSource>::empty(),
            r.as_sets() == Map::<StoreKey, AsSetView>::empty(),
            r.routes() == Map::<StoreKey, Seq<Seq<char>>>::empty(),
    {
        let r = DataStore::new();
        assert(r.data_sources() =~= Map::<Seq<char>, DataSource>::empty());
        r
    }
}

// ---------------------------------------------------------------------------
// Laws
// ---------------------------------------------------------------------------

/// Entries in descending priority.
pub open spec fn by_descending_priority(s: Seq<SourceEntry>) -> bool {
    forall|i: int, j: int| 0 <= i < j < s.len() ==> (#[trigger] s[i]).1.priority >= (#[trigger] s[j]).1.priority
}

proof fn lemma_insert_by_priority(sorted: Seq<SourceEntry>, e: SourceEntry)
    requires
        by_descending_priority(sorted),
    ensures
        by_descending_priority(insert_by_priority(sorted, e)),
        insert_by_priority(sorted, e).to_multiset() == sorted.to_multiset().insert(e),
    decreases sorted.len(),
{
    broadcast use vstd::seq_lib::group_to_multiset_ensures;
    if sorted.len() == 0 {
        assert(seq![e] =~= Seq::<SourceEntry>::empty().push(e));
    } else if sorted.last().1.priority >= e.1.priority {
    } else {
        let t = sorted.drop_last();
        lemma_insert_by_priority(t, e);
        let r = insert_by_priority(t, e);
        assert(sorted =~= t.push(sorted.last()));
        assert forall|i: int, j: int| 0 <= i < j < r.push(sorted.last()).len() implies (#[trigger] r.push(
            sorted.last(),
        )[i]).1.priority >= (#[trigger] r.push(sorted.last())[j]).1.priority by {
            if j == r.len() {
                // every entry of `r` is `e` or an entry of `t`, all at least the last of `sorted`
                let x = r[i];
                assert(r.to_multiset().count(x) > 0);
                assert(r.to_multiset() == t.to_multiset().insert(e));
                if x != e {
                    assert(t.to_multiset().count(x) > 0);
                    assert(t.contains(x));
                    let k = choose|k: int| 0 <= k < t.len() && t[k] == x;
                    assert(sorted[k] == x);
                    assert(sorted[k].1.priority >= sorted[sorted.len() - 1].1.priority);
                }
            } else {
                assert(r.push(sorted.last())[i] == r[i]);
                assert(r.push(sorted.last())[j] == r[j]);
            }
        }
    }
}

/// Sorting data sources by priority keeps every entry, each as many times,
/// and puts them in descending priority.
pub proof fn law_sort_by_priority(entries: Seq<SourceEntry>)
    ensures
        by_descending_priority(sort_by_priority(entries)),
        sort_by_priority(entries).to_multiset() == entries.to_multiset(),
    decreases entries.len(),
{
    broadcast use vstd::seq_lib::group_to_multiset_ensures;
    if entries.len() > 0 {
        law_sort_by_priority(entries.drop_last());
        lemma_insert_by_priority(sort_by_priority(entries.drop_last()), entries.last());
        assert(entries =~= entries.drop_last().push(entries.last()));
    }
}

proof fn lemma_names_without_excludes(names: Seq<Seq<char>>, exclude: Seq<Seq<char>>)
    ensures
        forall|k: int| 0 <= k < names_without(names, exclude).len() ==> !exclude.contains(
            #[trigger] names_without(names, exclude)[k],
        ),
    decreases names.len(),
{
    if names.len() > 0 {
        lemma_names_without_excludes(names.drop_last(), exclude);
        let rest = names_without(names.drop_last(), exclude);
        if !exclude.contains(names.last()) {
            assert forall|k: int| 0 <= k < rest.push(names.last()).len() implies !exclude.contains(
                #[trigger] rest.push(names.last())[k],
            ) by {
                if k < rest.len() {
                    assert(rest.push(names.last())[k] == rest[k]);
                }
            }
        }
    }
}

proof fn lemma_entries_without_excludes(entries: Seq<SourceEntry>, exclude: Seq<Seq<char>>)
    ensures
        forall|k: int| 0 <= k < entries_without(entries, exclude).len() ==> !exclude.contains(
            (#[trigger] entries_without(entries, exclude)[k]).0,
        ),
        forall|k: int| 0 <= k < entries_without(entries, exclude).len() ==> entries.contains(
            #[trigger] entries_without(entries, exclude)[k],
        ),
        forall|k: int| 0 <= k < entries.len() && !exclude.contains(entries[k].0) ==> entries_without(
            entries,
            exclude,
        ).contains(#[trigger] entries[k]),
    decreases entries.len(),
{
    if entries.len() > 0 {
        let t = entries.drop_last();
        lemma_entries_without_excludes(t, exclude);
        let rest = entries_without(t, exclude);
        let w = entries_without(entries, exclude);
        assert forall|k: int| 0 <= k < w.len() implies entries.contains(#[trigger] w[k]) by {
            if k < rest.len() {
                assert(w[k] == rest[k]);
                let m = choose|m: int| 0 <= m < t.len() && t[m] == rest[k];
                assert(entries[m] == t[m]);
            } else {
                assert(w[k] == entries.last());
                assert(entries[entries.len() - 1] == entries.last());
            }
        }
        assert forall|k: int| 0 <= k < w.len() implies !exclude.contains((#[trigger] w[k]).0) by {
            if k < rest.len() {
                assert(w[k] == rest[k]);
            }
        }
        assert forall|k: int| 0 <= k < entries.len() && !exclude.contains(entries[k].0) implies w.contains(
            #[trigger] entries[k],
        ) by {
            if k < t.len() {
                assert(t[k] == entries[k]);
                let m = choose|m: int| 0 <= m < rest.len() && rest[m] == t[k];
                assert(w[m] == rest[m]);
            } else {
                assert(w[w.len() - 1] == entries[k]);
            }
        }
    }
}

proof fn lemma_without_unique(entries: Seq<SourceEntry>, exclude: Seq<Seq<char>>)
    requires
        unique_names(entries),
    ensures
        unique_names(entries_without(entries, exclude)),
    decreases entries.len(),
{
    if entries.len() > 0 {
        let t = entries.drop_last();
        assert(unique_names(t)) by {
            assert forall|i: int, j: int| 0 <= i < j < t.len() implies (#[trigger] t[i]).0 != (#[trigger] t[j]).0 by {
                assert(t[i] == entries[i] && t[j] == entries[j]);
            }
        }
        lemma_without_unique(t, exclude);
        lemma_entries_without_excludes(t, exclude);
        let rest = entries_without(t, exclude);
        if !exclude.contains(entries.last().0) {
            let w = rest.push(entries.last());
            assert forall|i: int, j: int| 0 <= i < j < w.len() implies (#[trigger] w[i]).0 != (#[trigger] w[j]).0 by {
                if j == rest.len() {
                    assert(t.contains(rest[i]));
                    let m = choose|m: int| 0 <= m < t.len() && t[m] == rest[i];
                    assert(entries[m] == t[m]);
                    assert(entries[entries.len() - 1] == entries.last());
                } else {
                    assert(w[i] == rest[i] && w[j] == rest[j]);
                }
            }
        }
    }
}

proof fn lemma_insert_unique(q: Seq<SourceEntry>, e: SourceEntry)
    requires
        unique_names(q),
        forall|k: int| 0 <= k < q.len() ==> (#[trigger] q[k]).0 != e.0,
    ensures
        unique_names(insert_by_priority(q, e)),
        forall|k: int| 0 <= k < insert_by_priority(q, e).len() ==> #[trigger] insert_by_priority(q, e)[k] == e
            || q.contains(insert_by_priority(q, e)[k]),
    decreases q.len(),
{
    let ins = insert_by_priority(q, e);
    if q.len() == 0 {
    } else if q.last().1.priority >= e.1.priority {
        assert forall|i: int, j: int| 0 <= i < j < ins.len() implies (#[trigger] ins[i]).0 != (#[trigger] ins[j]).0 by {
            if j == q.len() {
                assert(ins[i] == q[i]);
            } else {
                assert(ins[i] == q[i] && ins[j] == q[j]);
            }
        }
        assert forall|k: int| 0 <= k < ins.len() implies #[trigger] ins[k] == e || q.contains(ins[k]) by {
            if k < q.len() {
                assert(ins[k] == q[k]);
            }
        }
    } else {
        let d = q.drop_last();
        assert(unique_names(d)) by {
            assert forall|i: int, j: int| 0 <= i < j < d.len() implies (#[trigger] d[i]).0 != (#[trigger] d[j]).0 by {
                assert(d[i] == q[i] && d[j] == q[j]);
            }
        }
        assert forall|k: int| 0 <= k < d.len() implies (#[trigger] d[k]).0 != e.0 by {
            assert(d[k] == q[k]);
        }
        lemma_insert_unique(d, e);
        let sub = insert_by_priority(d, e);
        assert(ins == sub.push(q.last()));
        assert forall|i: int, j: int| 0 <= i < j < ins.len() implies (#[trigger] ins[i]).0 != (#[trigger] ins[j]).0 by {
            if j == sub.len() {
                assert(ins[i] == sub[i]);
                assert(ins[j] == q.last());
                assert(q[q.len() - 1] == q.last());
                if sub[i] != e {
                    assert(d.contains(sub[i]));
                    let m = choose|m: int| 0 <= m < d.len() && d[m] == sub[i];
                    assert(q[m] == d[m]);
                }
            } else {
                assert(ins[i] == sub[i] && ins[j] == sub[j]);
            }
        }
        assert forall|k: int| 0 <= k < ins.len() implies #[trigger] ins[k] == e || q.contains(ins[k]) by {
            if k < sub.len() {
                assert(ins[k] == sub[k]);
                if sub[k] != e {
                    assert(d.contains(sub[k]));
                    let m = choose|m: int| 0 <= m < d.len() && d[m] == sub[k];
                    assert(q[m] == d[m]);
                }
            } else {
                assert(q[q.len() - 1] == q.last());
            }
        }
    }
}

proof fn lemma_sort_unique(s: Seq<SourceEntry>)
    requires
        unique_names(s),
    ensures
        unique_names(sort_by_priority(s)),
        forall|k: int| 0 <= k < sort_by_priority(s).len() ==> s.contains(#[trigger] sort_by_priority(s)[k]),
    decreases s.len(),
{
    if s.len() > 0 {
        let d = s.drop_last();
        assert(unique_names(d)) by {
            assert forall|i: int, j: int| 0 <= i < j < d.len() implies (#[trigger] d[i]).0 != (#[trigger] d[j]).0 by {
                assert(d[i] == s[i] && d[j] == s[j]);
            }
        }
        lemma_sort_unique(d);
        let sd = sort_by_priority(d);
        assert(s[s.len() - 1] == s.last());
        assert forall|k: int| 0 <= k < sd.len() implies (#[trigger] sd[k]).0 != s.last().0 by {
            assert(d.contains(sd[k]));
            let m = choose|m: int| 0 <= m < d.len() && d[m] == sd[k];
            assert(s[m] == d[m]);
        }
        lemma_insert_unique(sd, s.last());
        let r = sort_by_priority(s);
        assert forall|k: int| 0 <= k < r.len() implies s.contains(#[trigger] r[k]) by {
            if r[k] != s.last() {
                assert(sd.contains(r[k]));
                let m = choose|m: int| 0 <= m < sd.len() && sd[m] == r[k];
                assert(d.contains(sd[m]));
                let m2 = choose|m2: int| 0 <= m2 < d.len() && d[m2] == sd[m];
                assert(s[m2] == d[m2]);
            }
        }
    }
}

/// No two registered data sources share a name.
pub proof fn law_registered_names_unique(store: &DataStore)
    requires
        store.valid(),
    ensures
        unique_names(store.source_entries()),
{
}

/// The data sources that a query asks by priority are exactly the registered
/// ones that are not excluded, each once, highest priority first.
pub proof fn law_sorted_sources(store: &DataStore, exclude: Seq<Seq<char>>)
    requires
        store.valid(),
    ensures
        forall|i: int, j: int| 0 <= i < j < store.sorted_sources(exclude).len() ==>
            #[trigger] store.sorted_sources(exclude)[i] != #[trigger] store.sorted_sources(exclude)[j],
        forall|k: int| 0 <= k < store.sorted_sources(exclude).len() ==> {
            let n = #[trigger] store.sorted_sources(exclude)[k];
            &&& store.data_sources().contains_key(n)
            &&& !exclude.contains(n)
        },
        forall|n: Seq<char>| #[trigger] store.data_sources().contains_key(n) && !exclude.contains(n)
            ==> store.sorted_sources(exclude).contains(n),
        forall|i: int, j: int| 0 <= i < j < store.sorted_sources(exclude).len() ==>
            store.data_sources()[#[trigger] store.sorted_sources(exclude)[i]].priority
                >= store.data_sources()[#[trigger] store.sorted_sources(exclude)[j]].priority,
{
    broadcast use vstd::seq_lib::group_to_multiset_ensures;
    let entries = store.source_entries();
    let w = entries_without(entries, exclude);
    let sorted = sort_by_priority(w);
    lemma_entries_without_excludes(entries, exclude);
    law_sort_by_priority(w);
    let names = store.sorted_sources(exclude);
    assert(names == names_of(sorted));
    lemma_without_unique(entries, exclude);
    lemma_sort_unique(w);
    assert forall|i: int, j: int| 0 <= i < j < names.len() implies #[trigger] names[i] != #[trigger] names[j] by {
        assert(names[i] == sorted[i].0 && names[j] == sorted[j].0);
    }
    // every sorted entry is a registered entry that is not excluded
    assert forall|k: int| 0 <= k < sorted.len() implies entries.contains(#[trigger] sorted[k]) && !exclude.contains(sorted[k].0) by {
        assert(sorted.to_multiset().count(sorted[k]) > 0);
        assert(w.contains(sorted[k]));
        let m = choose|m: int| 0 <= m < w.len() && w[m] == sorted[k];
        assert(entries.contains(w[m]));
    }
    assert forall|k: int| 0 <= k < names.len() implies {
        let n = #[trigger] names[k];
        &&& store.data_sources().contains_key(n)
        &&& !exclude.contains(n)
    } by {
        assert(names[k] == sorted[k].0);
        assert(entries.contains(sorted[k]));
        let m = choose|m: int| 0 <= m < entries.len() && entries[m] == sorted[k];
        lemma_entry_index(entries, m);
    }
    assert forall|n: Seq<char>| #[trigger] store.data_sources().contains_key(n) && !exclude.contains(n)
        implies names.contains(n) by {
        let m = choose|m: int| 0 <= m < entries.len() && (#[trigger] entries[m]).0 == n;
        assert(w.contains(entries[m]));
        assert(w.to_multiset().count(entries[m]) > 0);
        assert(sorted.contains(entries[m]));
        let k = choose|k: int| 0 <= k < sorted.len() && sorted[k] == entries[m];
        assert(names[k] == n);
    }
    assert forall|i: int, j: int| 0 <= i < j < names.len() implies store.data_sources()[#[trigger] names[i]].priority
        >= store.data_sources()[#[trigger] names[j]].priority by {
        assert(entries.contains(sorted[i]));
        assert(entries.contains(sorted[j]));
        let a = choose|m: int| 0 <= m < entries.len() && entries[m] == sorted[i];
        let b = choose|m: int| 0 <= m < entries.len() && entries[m] == sorted[j];
        lemma_entry_index(entries, a);
        lemma_entry_index(entries, b);
        assert(names[i] == sorted[i].0);
        assert(names[j] == sorted[j].0);
    }
}

/// A query never asks a data source that it excludes.
pub proof fn law_excluded_sources_not_asked(store: &DataStore, requested: Seq<Seq<char>>, exclude: Seq<Seq<char>>)
    requires
        store.valid(),
    ensures
        forall|k: int| 0 <= k < store.query_sources(requested, exclude).len() ==> !exclude.contains(
            #[trigger] store.query_sources(requested, exclude)[k],
        ),
{
    if requested.len() == 0 {
        law_sorted_sources(store, exclude);
    } else {
        lemma_names_without_excludes(requested, exclude);
    }
}

/// What a data source that holds `name` answers comes first: asking a single
/// data source gives what it holds under the name.
pub proof fn law_first_found_single<V>(m: Map<StoreKey, V>, source: Seq<char>, name: Seq<char>)
    ensures
        first_found(m, seq![source], name) == if m.contains_key((source, name)) {
            Some(m[(source, name)])
        } else {
            None
        },
{
    assert(seq![source][0] == source);
    if !m.contains_key((source, name)) {
        assert(seq![source].drop_first() =~= Seq::<Seq<char>>::empty());
        assert(first_found(m, Seq::<Seq<char>>::empty(), name) == None::<V>);
    }
}

/// An AS-set that is imported is what a query of its data source answers,
/// for any query name that is the object's name in upper case; for every
/// other name the answer stays as it was.
pub proof fn law_imported_as_set_is_answered(
    before: &DataStore,
    after: &DataStore,
    source: Seq<char>,
    text: Seq<char>,
    query_name: Seq<char>,
)
    requires
        rpsl_parse(text) is Ok,
        import_accepted(text),
        object_class(rpsl_parse(text)->Ok_0) == "as-set"@,
        after.as_sets() == store_after_import(before, source, text).0,
    ensures
        after.as_set_answer(seq![source], query_name, Seq::empty()) == if unicode_uppercase(query_name)
            == object_name(rpsl_parse(text)->Ok_0) {
            Some(as_set_of(rpsl_parse(text)->Ok_0))
        } else {
            before.as_set_answer(seq![source], query_name, Seq::empty())
        },
{
    lemma_names_without_nothing(seq![source]);
    law_first_found_single(after.as_sets(), source, unicode_uppercase(query_name));
    law_first_found_single(before.as_sets(), source, unicode_uppercase(query_name));
}

/// How many of `origins` are AS numbers in public use once cleaned and clean
/// to `asn`.
pub open spec fn origin_count(origins: Seq<Seq<char>>, asn: Seq<char>) -> nat
    decreases origins.len(),
{
    if origins.len() == 0 {
        0
    } else {
        origin_count(origins.drop_last(), asn) + if is_public_asn_name(clean_text(origins.last()))
            && clean_text(origins.last()) == asn {
            1nat
        } else {
            0nat
        }
    }
}

proof fn lemma_add_routes_at(
    m: Map<StoreKey, Seq<Seq<char>>>,
    source: Seq<char>,
    origins: Seq<Seq<char>>,
    prefix: Seq<char>,
    asn: Seq<char>,
)
    ensures
        origin_count(origins, asn) == 0 ==> {
            &&& add_routes(m, source, origins, prefix).contains_key((source, asn)) == m.contains_key((source, asn))
            &&& m.contains_key((source, asn)) ==> add_routes(m, source, origins, prefix)[(source, asn)] == m[(source, asn)]
        },
        origin_count(origins, asn) > 0 ==> {
            &&& add_routes(m, source, origins, prefix).contains_key((source, asn))
            &&& add_routes(m, source, origins, prefix)[(source, asn)] == (if m.contains_key((source, asn)) {
                m[(source, asn)]
            } else {
                Seq::empty()
            }) + Seq::new(origin_count(origins, asn), |i: int| prefix)
        },
    decreases origins.len(),
{
    if origins.len() > 0 {
        let rest = origins.drop_last();
        lemma_add_routes_at(m, source, rest, prefix, asn);
        let prior = add_routes(m, source, rest, prefix);
        let key = (source, asn);
        let n = origin_count(rest, asn);
        let base = if m.contains_key(key) { m[key] } else { Seq::<Seq<char>>::empty() };
        if is_public_asn_name(clean_text(origins.last())) && clean_text(origins.last()) == asn {
            if n > 0 {
                assert(base + Seq::new(n + 1, |i: int| prefix) =~= (base + Seq::new(n, |i: int| prefix)).push(prefix));
            } else {
                assert(base + Seq::new(1, |i: int| prefix) =~= if prior.contains_key(key) {
                    prior[key].push(prefix)
                } else {
                    seq![prefix]
                });
            }
        }
    }
}

/// A route that is imported adds its prefix, in canonical form, to the
/// routes of its origins (cleaned) in its data source, at the end, once for
/// each origin that names the AS number; the routes of every other AS number
/// stay as they were, and so do all routes where the prefix is not an IP
/// prefix in public use.
pub proof fn law_imported_route_is_answered(
    before: &DataStore,
    after: &DataStore,
    source: Seq<char>,
    text: Seq<char>,
    asn: Seq<char>,
)
    requires
        rpsl_parse(text) is Ok,
        import_accepted(text),
        object_class(rpsl_parse(text)->Ok_0) == "route"@ || object_class(rpsl_parse(text)->Ok_0) == "route6"@,
        after.routes() == store_after_import(before, source, text).1,
    ensures
        ({
            let attrs = rpsl_parse(text)->Ok_0;
            let n = origin_count(values_named(attrs, "origin"@), asn);
            first_found(after.routes(), seq![source], asn) == match route_prefix(attrs) {
                Some(prefix) => if n == 0 {
                    first_found(before.routes(), seq![source], asn)
                } else {
                    Some(
                        match first_found(before.routes(), seq![source], asn) {
                            Some(prefixes) => prefixes,
                            None => Seq::empty(),
                        } + Seq::new(n, |i: int| prefix),
                    )
                },
                None => first_found(before.routes(), seq![source], asn),
            }
        }),
{
    let attrs = rpsl_parse(text)->Ok_0;
    law_first_found_single(after.routes(), source, asn);
    law_first_found_single(before.routes(), source, asn);
    match route_prefix(attrs) {
        Some(prefix) => {
            lemma_add_routes_at(before.routes(), source, values_named(attrs, "origin"@), prefix, asn);
        },
        None => {},
    }
}

/// An AS-set that has been visited resolves to nothing: resolution does not
/// go round a cycle of AS-sets.
pub proof fn law_visited_resolves_to_nothing(
    store: &DataStore,
    as_set: Seq<char>,
    depth: nat,
    visited: Seq<Seq<char>>,
    exclude: Seq<Seq<char>>,
)
    requires
        visited.contains(as_set),
    ensures
        store.resolve_as_set(as_set, depth, visited, exclude) == Seq::<Seq<char>>::empty(),
{
}

/// Looking an AS-set up by a name already in upper case gives what looking it
/// up by the name itself gives: for an ASCII name, its upper case is ASCII
/// again and is its own upper case.
pub proof fn law_uppercased_name_same_answer(m: Map<StoreKey, AsSetView>, sources: Seq<Seq<char>>, name: Seq<char>)
    requires
        is_ascii_text(name),
    ensures
        is_ascii_text(ascii_uppercase(name)),
        ascii_uppercase(ascii_uppercase(name)) == ascii_uppercase(name),
        first_found(m, sources, ascii_uppercase(ascii_uppercase(name))) == first_found(m, sources, ascii_uppercase(name)),
{
    let u = ascii_uppercase(name);
    assert forall|k: int| 0 <= k < u.len() implies (#[trigger] u[k] as int) < 128 by {
        assert((name[k] as int) < 128);
    }
    assert(ascii_uppercase(u) =~= u);
}

/// Every element of `a` is an element of `b`.
pub open spec fn within(a: Seq<Seq<char>>, b: Seq<Seq<char>>) -> bool {
    forall|k: int| 0 <= k < a.len() ==> b.contains(#[trigger] a[k])
}

proof fn lemma_within_concat(a1: Seq<Seq<char>>, a2: Seq<Seq<char>>, b1: Seq<Seq<char>>, b2: Seq<Seq<char>>)
    requires
        within(a1, b1),
        within(a2, b2),
    ensures
        within(a1 + a2, b1 + b2),
{
    let a = a1 + a2;
    let b = b1 + b2;
    assert forall|k: int| 0 <= k < a.len() implies b.contains(#[trigger] a[k]) by {
        if k < a1.len() {
            assert(a[k] == a1[k]);
            let m = choose|m: int| 0 <= m < b1.len() && b1[m] == a1[k];
            assert(b[m] == b1[m]);
        } else {
            assert(a[k] == a2[k - a1.len()]);
            assert(b2.contains(a2[k - a1.len()]));
            let m = choose|m: int| 0 <= m < b2.len() && b2[m] == a2[k - a1.len()];
            assert(b[m + b1.len()] == b2[m]);
        }
    }
}

proof fn lemma_resolve_grows(
    store: &DataStore,
    as_set: Seq<char>,
    d1: nat,
    d2: nat,
    v1: Seq<Seq<char>>,
    v2: Seq<Seq<char>>,
    exclude: Seq<Seq<char>>,
)
    requires
        d1 <= d2,
        within(v2, v1),
    ensures
        within(store.resolve_as_set(as_set, d1, v1, exclude), store.resolve_as_set(as_set, d2, v2, exclude)),
    decreases d1, 0nat,
{
    let r2 = store.resolve_as_set(as_set, d2, v2, exclude);
    if !v1.contains(as_set) {
        if v2.contains(as_set) {
            let m = choose|m: int| 0 <= m < v2.len() && v2[m] == as_set;
            assert(v1.contains(v2[m]));
        }
        let members = match store.as_set_answer(store.sorted_sources(exclude), as_set, Seq::empty()) {
            Some(m) => m,
            None => (Seq::empty(), Seq::empty()),
        };
        assert(within(members.0, members.0)) by {
            assert forall|k: int| 0 <= k < members.0.len() implies members.0.contains(#[trigger] members.0[k]) by {}
        }
        if d1 > 0 {
            let w1 = v1.push(as_set);
            let w2 = v2.push(as_set);
            assert forall|k: int| 0 <= k < w2.len() implies w1.contains(#[trigger] w2[k]) by {
                if k < v2.len() {
                    assert(w2[k] == v2[k]);
                    assert(v1.contains(v2[k]));
                    let m = choose|m: int| 0 <= m < v1.len() && v1[m] == v2[k];
                    assert(w1[m] == v1[m]);
                } else {
                    assert(w1[v1.len() as int] == as_set);
                }
            }
            lemma_members_grow(store, members.1, (d1 - 1) as nat, (d2 - 1) as nat, w1, w2, exclude);
            lemma_within_concat(
                members.0,
                store.resolve_members(members.1, (d1 - 1) as nat, w1, exclude),
                members.0,
                store.resolve_members(members.1, (d2 - 1) as nat, w2, exclude),
            );
        } else if d2 > 0 {
            let rest = store.resolve_members(members.1, (d2 - 1) as nat, v2.push(as_set), exclude);
            assert forall|k: int| 0 <= k < members.0.len() implies r2.contains(#[trigger] members.0[k]) by {
                assert(r2[k] == members.0[k]);
            }
        }
    }
}

proof fn lemma_members_grow(
    store: &DataStore,
    sets: Seq<Seq<char>>,
    d1: nat,
    d2: nat,
    v1: Seq<Seq<char>>,
    v2: Seq<Seq<char>>,
    exclude: Seq<Seq<char>>,
)
    requires
        d1 <= d2,
        within(v2, v1),
    ensures
        within(store.resolve_members(sets, d1, v1, exclude), store.resolve_members(sets, d2, v2, exclude)),
    decreases d1, sets.len() + 1,
{
    if sets.len() > 0 {
        lemma_members_grow(store, sets.drop_last(), d1, d2, v1, v2, exclude);
        lemma_resolve_grows(store, sets.last(), d1, d2, v1, v2, exclude);
        lemma_within_concat(
            store.resolve_members(sets.drop_last(), d1, v1, exclude),
            store.resolve_as_set(sets.last(), d1, v1, exclude),
            store.resolve_members(sets.drop_last(), d2, v2, exclude),
            store.resolve_as_set(sets.last(), d2, v2, exclude),
        );
    }
}

/// Following members deeper, or ignoring fewer AS-sets, never loses an AS
/// number: every AS number that an AS-set resolves to at depth `d1` with the
/// AS-sets `ignored1` ignored is among those it resolves to at any depth
/// `d2 >= d1` with only AS-sets of `ignored1` ignored.
pub proof fn law_resolution_grows(
    store: &DataStore,
    as_set: Seq<char>,
    d1: nat,
    d2: nat,
    ignored1: Seq<Seq<char>>,
    ignored2: Seq<Seq<char>>,
    exclude: Seq<Seq<char>>,
)
    requires
        d1 <= d2,
        forall|k: int| 0 <= k < ignored2.len() ==> ignored1.contains(#[trigger] ignored2[k]),
    ensures
        forall|k: int| 0 <= k < store.resolve_as_set(as_set, d1, ignored1, exclude).len()
            ==> store.resolve_as_set(as_set, d2, ignored2, exclude).contains(
                #[trigger] store.resolve_as_set(as_set, d1, ignored1, exclude)[k],
            ),
{
    lemma_resolve_grows(store, as_set, d1, d2, ignored1, ignored2, exclude);
}

/// Resolving an AS-set without following members gives its own AS numbers.
pub proof fn law_depth_zero_gives_own_asns(
    store: &DataStore,
    as_set: Seq<char>,
    visited: Seq<Seq<char>>,
    exclude: Seq<Seq<char>>,
)
    requires
        !visited.contains(as_set),
    ensures
        store.resolve_as_set(as_set, 0, visited, exclude) == match store.as_set_answer(
            store.sorted_sources(exclude),
            as_set,
            Seq::empty(),
        ) {
            Some(m) => m.0,
            None => Seq::empty(),
        },
{
}

proof fn lemma_members_in_tokens(tokens: Seq<Seq<char>>)
    ensures
        forall|k: int| 0 <= k < asn_members(tokens).len() ==> is_public_asn_name(#[trigger] asn_members(tokens)[k]),
        forall|k: int| 0 <= k < as_set_members(tokens).len() ==> is_as_set_name(#[trigger] as_set_members(tokens)[k])
            && !is_asn_name(as_set_members(tokens)[k]),
    decreases tokens.len(),
{
    if tokens.len() > 0 {
        lemma_members_in_tokens(tokens.drop_last());
        let a = asn_members(tokens.drop_last());
        let b = as_set_members(tokens.drop_last());
        assert forall|k: int| 0 <= k < asn_members(tokens).len() implies is_public_asn_name(#[trigger] asn_members(tokens)[k]) by {
            if k < a.len() {
                assert(asn_members(tokens)[k] == a[k]);
            }
        }
        assert forall|k: int| 0 <= k < as_set_members(tokens).len() implies is_as_set_name(#[trigger] as_set_members(tokens)[k])
            && !is_asn_name(as_set_members(tokens)[k]) by {
            if k < b.len() {
                assert(as_set_members(tokens)[k] == b[k]);
            }
        }
    }
}

/// The members that an AS-set keeps are well formed: its AS numbers are AS
/// numbers in public use, its AS-sets are AS-set names; each list is in ascending order
/// and names nothing twice.
pub proof fn law_members_are_well_formed(members: Seq<Seq<char>>)
    ensures
        ({
            let tokens = member_tokens(members);
            let asns = sorted_seq_of(asn_members(tokens).to_set());
            let sets = sorted_seq_of(as_set_members(tokens).to_set());
            &&& is_strictly_sorted(asns)
            &&& is_strictly_sorted(sets)
            &&& forall|k: int| 0 <= k < asns.len() ==> is_public_asn_name(#[trigger] asns[k])
            &&& forall|k: int| 0 <= k < sets.len() ==> is_as_set_name(#[trigger] sets[k])
        }),
{
    let tokens = member_tokens(members);
    lemma_members_in_tokens(tokens);
    lemma_sorted_seq_of(asn_members(tokens));
    lemma_sorted_seq_of(as_set_members(tokens));
    let asns = sorted_seq_of(asn_members(tokens).to_set());
    let sets = sorted_seq_of(as_set_members(tokens).to_set());
    assert forall|k: int| 0 <= k < asns.len() implies is_public_asn_name(#[trigger] asns[k]) by {
        assert(asns.to_set().contains(asns[k]));
        let m = choose|m: int| 0 <= m < asn_members(tokens).len() && asn_members(tokens)[m] == asns[k];
    }
    assert forall|k: int| 0 <= k < sets.len() implies is_as_set_name(#[trigger] sets[k]) by {
        assert(sets.to_set().contains(sets[k]));
        let m = choose|m: int| 0 <= m < as_set_members(tokens).len() && as_set_members(tokens)[m] == sets[k];
    }
}

/// The elements of a sequence, sorted and each once, form an ascending
/// sequence that holds them.
pub proof fn lemma_sorted_seq_of(s: Seq<Seq<char>>)
    ensures
        is_strictly_sorted(sorted_seq_of(s.to_set())),
        sorted_seq_of(s.to_set()).to_set() == s.to_set(),
    decreases s.len(),
{
    if s.len() == 0 {
        assert(is_strictly_sorted(Seq::<Seq<char>>::empty()));
        assert(Seq::<Seq<char>>::empty().to_set() =~= s.to_set());
    } else {
        lemma_sorted_seq_of(s.drop_last());
        let q = sorted_seq_of(s.drop_last().to_set());
        let x = s.last();
        let r = sorted_insert(q, x);
        lemma_sorted_insert(q, x);
        assert(s.to_set() =~= s.drop_last().to_set().insert(x)) by {
            assert(s =~= s.drop_last().push(x));
            crate::text::lemma_push_contains(s.drop_last(), x);
        }
        assert(is_strictly_sorted(r) && r.to_set() == s.to_set());
    }
}

/// A lookup over data sources answers exactly when one of them holds the
/// name, and then with what the first of them that holds it has: later
/// sources are asked whenever the earlier ones do not hold the name.
pub proof fn law_first_found_answers<V>(m: Map<StoreKey, V>, sources: Seq<Seq<char>>, name: Seq<char>)
    ensures
        first_found(m, sources, name) is Some <==> exists|k: int|
            0 <= k < sources.len() && #[trigger] m.contains_key((sources[k], name)),
        forall|k: int|
            0 <= k < sources.len() && #[trigger] m.contains_key((sources[k], name)) && (forall|j: int|
                0 <= j < k ==> !m.contains_key((sources[j], name))) ==> first_found(m, sources, name) == Some(
                m[(sources[k], name)],
            ),
    decreases sources.len(),
{
    if sources.len() > 0 {
        let rest = sources.drop_first();
        law_first_found_answers(m, rest, name);
        assert forall|k: int| 0 <= k < rest.len() implies rest[k] == sources[k + 1] by {}
        if first_found(m, sources, name) is Some {
            if m.contains_key((sources[0], name)) {
                assert(m.contains_key((sources[0], name)));
            } else {
                let k = choose|k: int| 0 <= k < rest.len() && #[trigger] m.contains_key((rest[k], name));
                assert(m.contains_key((sources[k + 1], name)));
            }
        }
        if exists|k: int| 0 <= k < sources.len() && #[trigger] m.contains_key((sources[k], name)) {
            let k = choose|k: int| 0 <= k < sources.len() && #[trigger] m.contains_key((sources[k], name));
            if !m.contains_key((sources[0], name)) {
                assert(k > 0);
                assert(rest[k - 1] == sources[k]);
                assert(m.contains_key((rest[k - 1], name)));
            }
        }
        assert forall|k: int|
            0 <= k < sources.len() && #[trigger] m.contains_key((sources[k], name)) && (forall|j: int|
                0 <= j < k ==> !m.contains_key((sources[j], name))) implies first_found(m, sources, name) == Some(
            m[(sources[k], name)],
        ) by {
            if k > 0 {
                assert(!m.contains_key((sources[0], name)));
                assert(rest[k - 1] == sources[k]);
                assert forall|j: int| 0 <= j < k - 1 implies !m.contains_key((rest[j], name)) by {
                    assert(rest[j] == sources[j + 1]);
                }
            }
        }
    }
}

/// The routes of the AS numbers `asns` are those of each of them in turn,
/// every one taken from the first data source of `sources` that has routes
/// for it: nothing for an AS number that no source has routes for, and the
/// routes of the first source holding it otherwise.
pub proof fn law_prefixes_of_each_asn(store: &DataStore, asns: Seq<Seq<char>>, a: Seq<char>, sources: Seq<Seq<char>>)
    ensures
        store.prefixes_of(Seq::empty(), sources) == Seq::<Seq<char>>::empty(),
        (forall|k: int| 0 <= k < sources.len() ==> !(#[trigger] store.routes().contains_key((sources[k], a))))
            ==> store.prefixes_of(asns.push(a), sources) == store.prefixes_of(asns, sources),
        forall|k: int|
            0 <= k < sources.len() && #[trigger] store.routes().contains_key((sources[k], a)) && (forall|j: int|
                0 <= j < k ==> !store.routes().contains_key((sources[j], a))) ==> store.prefixes_of(
                asns.push(a),
                sources,
            ) == store.prefixes_of(asns, sources) + store.routes()[(sources[k], a)],
{
    law_first_found_answers(store.routes(), sources, a);
    assert(asns.push(a).drop_last() =~= asns);
    if forall|k: int| 0 <= k < sources.len() ==> !(#[trigger] store.routes().contains_key((sources[k], a))) {
        assert(first_found(store.routes(), sources, a) is None);
        assert(store.prefixes_of(asns, sources) + Seq::<Seq<char>>::empty() =~= store.prefixes_of(asns, sources));
    }
}

proof fn lemma_members_hold_each(
    store: &DataStore,
    sets: Seq<Seq<char>>,
    depth: nat,
    visited: Seq<Seq<char>>,
    exclude: Seq<Seq<char>>,
)
    ensures
        forall|k: int| 0 <= k < sets.len() ==> within(
            #[trigger] store.resolve_as_set(sets[k], depth, visited, exclude),
            store.resolve_members(sets, depth, visited, exclude),
        ),
        forall|x: Seq<char>| store.resolve_members(sets, depth, visited, exclude).contains(x) ==> exists|k: int|
            0 <= k < sets.len() && #[trigger] store.resolve_as_set(sets[k], depth, visited, exclude).contains(x),
    decreases sets.len(),
{
    if sets.len() > 0 {
        let d = sets.drop_last();
        lemma_members_hold_each(store, d, depth, visited, exclude);
        let a = store.resolve_members(d, depth, visited, exclude);
        let b = store.resolve_as_set(sets.last(), depth, visited, exclude);
        let all = store.resolve_members(sets, depth, visited, exclude);
        assert(all == a + b);
        assert forall|k: int| 0 <= k < sets.len() implies within(
            #[trigger] store.resolve_as_set(sets[k], depth, visited, exclude),
            all,
        ) by {
            let r = store.resolve_as_set(sets[k], depth, visited, exclude);
            if k < d.len() {
                assert(d[k] == sets[k]);
                assert forall|i: int| 0 <= i < r.len() implies all.contains(#[trigger] r[i]) by {
                    assert(a.contains(r[i]));
                    let m = choose|m: int| 0 <= m < a.len() && a[m] == r[i];
                    assert(all[m] == a[m]);
                }
            } else {
                assert(sets[k] == sets.last());
                assert forall|i: int| 0 <= i < r.len() implies all.contains(#[trigger] r[i]) by {
                    assert(all[a.len() + i] == b[i]);
                }
            }
        }
        assert forall|x: Seq<char>| all.contains(x) implies exists|k: int|
            0 <= k < sets.len() && #[trigger] store.resolve_as_set(sets[k], depth, visited, exclude).contains(x) by {
            let m = choose|m: int| 0 <= m < all.len() && all[m] == x;
            if m < a.len() {
                assert(a[m] == x);
                assert(a.contains(x));
                let k = choose|k: int| 0 <= k < d.len() && #[trigger] store.resolve_as_set(d[k], depth, visited, exclude).contains(x);
                assert(d[k] == sets[k]);
            } else {
                assert(b[m - a.len()] == x);
                assert(b.contains(x));
                assert(sets[sets.len() - 1] == sets.last());
            }
        }
    }
}

/// The members of the AS-set `as_set` as the data sources not in `exclude`
/// (all of them, where that leaves none) hold it, looked up by priority: its
/// AS numbers and its member AS-sets; none where no data source has it.
pub open spec fn found_members(store: &DataStore, as_set: Seq<char>, exclude: Seq<Seq<char>>) -> AsSetView {
    match store.as_set_answer(store.sorted_sources(exclude), as_set, Seq::empty()) {
        Some(m) => m,
        None => (Seq::empty(), Seq::empty()),
    }
}

/// Resolving an AS-set that has not been visited gives its own AS numbers,
/// and, below the depth limit, everything that each of its member AS-sets
/// resolves to one level deeper (with the AS-set visited), and nothing else.
pub proof fn law_resolution_follows_every_member(
    store: &DataStore,
    as_set: Seq<char>,
    depth: nat,
    visited: Seq<Seq<char>>,
    exclude: Seq<Seq<char>>,
)
    requires
        !visited.contains(as_set),
    ensures
        within(found_members(store, as_set, exclude).0, store.resolve_as_set(as_set, depth, visited, exclude)),
        depth == 0 ==> store.resolve_as_set(as_set, depth, visited, exclude) == found_members(store, as_set, exclude).0,
        depth > 0 ==> forall|k: int| 0 <= k < found_members(store, as_set, exclude).1.len() ==> within(
            #[trigger] store.resolve_as_set(
                found_members(store, as_set, exclude).1[k],
                (depth - 1) as nat,
                visited.push(as_set),
                exclude,
            ),
            store.resolve_as_set(as_set, depth, visited, exclude),
        ),
        depth > 0 ==> forall|x: Seq<char>| store.resolve_as_set(as_set, depth, visited, exclude).contains(x)
            ==> found_members(store, as_set, exclude).0.contains(x) || exists|k: int|
            0 <= k < found_members(store, as_set, exclude).1.len() && #[trigger] store.resolve_as_set(
                found_members(store, as_set, exclude).1[k],
                (depth - 1) as nat,
                visited.push(as_set),
                exclude,
            ).contains(x),
{
    let members = match store.as_set_answer(store.sorted_sources(exclude), as_set, Seq::empty()) {
        Some(m) => m,
        None => (Seq::empty(), Seq::empty()),
    };
    let r = store.resolve_as_set(as_set, depth, visited, exclude);
    assert(members == found_members(store, as_set, exclude));
    if depth > 0 {
        let w = visited.push(as_set);
        let rest = store.resolve_members(members.1, (depth - 1) as nat, w, exclude);
        lemma_members_hold_each(store, members.1, (depth - 1) as nat, w, exclude);
        assert(r == members.0 + rest);
        assert forall|i: int| 0 <= i < members.0.len() implies r.contains(#[trigger] members.0[i]) by {
            assert(r[i] == members.0[i]);
        }
        assert forall|k: int| 0 <= k < members.1.len() implies within(
            #[trigger] store.resolve_as_set(members.1[k], (depth - 1) as nat, w, exclude),
            r,
        ) by {
            let q = store.resolve_as_set(members.1[k], (depth - 1) as nat, w, exclude);
            assert forall|i: int| 0 <= i < q.len() implies r.contains(#[trigger] q[i]) by {
                assert(rest.contains(q[i]));
                let m = choose|m: int| 0 <= m < rest.len() && rest[m] == q[i];
                assert(r[members.0.len() + m] == rest[m]);
            }
        }
        assert forall|x: Seq<char>| r.contains(x) implies members.0.contains(x) || exists|k: int|
            0 <= k < members.1.len() && #[trigger] store.resolve_as_set(members.1[k], (depth - 1) as nat, w, exclude).contains(x) by {
            let m = choose|m: int| 0 <= m < r.len() && r[m] == x;
            if m < members.0.len() {
                assert(members.0[m] == x);
            } else {
                assert(rest[m - members.0.len()] == x);
                assert(rest.contains(x));
            }
        }
    } else {
        assert forall|i: int| 0 <= i < members.0.len() implies r.contains(#[trigger] members.0[i]) by {
            assert(r[i] == members.0[i]);
        }
    }
}

/// Member entries are taken in upper case: an entry is kept as an AS-set
/// exactly when its upper case is an AS-set name (and not an AS number), and
/// as an AS number exactly when its upper case is an AS number in public use;
/// what is kept is that upper case.
pub proof fn law_members_are_upper_cased(tokens: Seq<Seq<char>>)
    ensures
        forall|x: Seq<char>| as_set_members(tokens).contains(x) <==> exists|i: int|
            0 <= i < tokens.len() && x == #[trigger] unicode_uppercase(tokens[i]) && !is_asn_name(x)
                && is_as_set_name(x),
        forall|x: Seq<char>| asn_members(tokens).contains(x) <==> exists|i: int|
            0 <= i < tokens.len() && x == #[trigger] unicode_uppercase(tokens[i]) && is_public_asn_name(x),
    decreases tokens.len(),
{
    if tokens.len() > 0 {
        let d = tokens.drop_last();
        law_members_are_upper_cased(d);
        let c = unicode_uppercase(tokens.last());
        let n = tokens.len() - 1;
        assert(tokens[n] == tokens.last());
        let sa = as_set_members(d);
        let sb = asn_members(d);
        assert forall|x: Seq<char>| as_set_members(tokens).contains(x) <==> exists|i: int|
            0 <= i < tokens.len() && x == #[trigger] unicode_uppercase(tokens[i]) && !is_asn_name(x)
                && is_as_set_name(x) by {
            let extra = if !is_asn_name(c) && is_as_set_name(c) { seq![c] } else { Seq::<Seq<char>>::empty() };
            assert(as_set_members(tokens) == sa + extra);
            if as_set_members(tokens).contains(x) {
                let m = choose|m: int| 0 <= m < (sa + extra).len() && (sa + extra)[m] == x;
                if m < sa.len() {
                    assert(sa[m] == x);
                    assert(sa.contains(x));
                    let i = choose|i: int| 0 <= i < d.len() && x == #[trigger] unicode_uppercase(d[i]) && !is_asn_name(x)
                        && is_as_set_name(x);
                    assert(d[i] == tokens[i]);
                } else {
                    assert(extra[m - sa.len()] == x);
                }
            }
            if exists|i: int| 0 <= i < tokens.len() && x == #[trigger] unicode_uppercase(tokens[i]) && !is_asn_name(x)
                && is_as_set_name(x) {
                let i = choose|i: int| 0 <= i < tokens.len() && x == #[trigger] unicode_uppercase(tokens[i]) && !is_asn_name(x)
                    && is_as_set_name(x);
                if i < n {
                    assert(d[i] == tokens[i]);
                    assert(sa.contains(x));
                    let m = choose|m: int| 0 <= m < sa.len() && sa[m] == x;
                    assert((sa + extra)[m] == x);
                } else {
                    assert((sa + extra)[sa.len() as int] == x);
                }
            }
        }
        assert forall|x: Seq<char>| asn_members(tokens).contains(x) <==> exists|i: int|
            0 <= i < tokens.len() && x == #[trigger] unicode_uppercase(tokens[i]) && is_public_asn_name(x) by {
            let extra = if is_public_asn_name(c) { seq![c] } else { Seq::<Seq<char>>::empty() };
            assert(asn_members(tokens) == sb + extra);
            if asn_members(tokens).contains(x) {
                let m = choose|m: int| 0 <= m < (sb + extra).len() && (sb + extra)[m] == x;
                if m < sb.len() {
                    assert(sb[m] == x);
                    assert(sb.contains(x));
                    let i = choose|i: int| 0 <= i < d.len() && x == #[trigger] unicode_uppercase(d[i]) && is_public_asn_name(x);
                    assert(d[i] == tokens[i]);
                } else {
                    assert(extra[m - sb.len()] == x);
                }
            }
            if exists|i: int| 0 <= i < tokens.len() && x == #[trigger] unicode_uppercase(tokens[i]) && is_public_asn_name(x) {
                let i = choose|i: int| 0 <= i < tokens.len() && x == #[trigger] unicode_uppercase(tokens[i]) && is_public_asn_name(x);
                if i < n {
                    assert(d[i] == tokens[i]);
                    assert(sb.contains(x));
                    let m = choose|m: int| 0 <= m < sb.len() && sb[m] == x;
                    assert((sb + extra)[m] == x);
                } else {
                    assert((sb + extra)[sb.len() as int] == x);
                }
            }
        }
    }
}

/// The AS numbers that member AS-sets resolve to are, in order, everything
/// that the first member resolves to, then everything the second does, and
/// so on for every member.
pub proof fn law_members_resolve_in_order(
    store: &DataStore,
    sets: Seq<Seq<char>>,
    depth: nat,
    visited: Seq<Seq<char>>,
    exclude: Seq<Seq<char>>,
)
    ensures
        store.resolve_members(sets, depth, visited, exclude) == Seq::new(
            sets.len(),
            |k: int| store.resolve_as_set(sets[k], depth, visited, exclude),
        ).flatten(),
    decreases sets.len(),
{
    let parts = Seq::new(sets.len(), |k: int| store.resolve_as_set(sets[k], depth, visited, exclude));
    parts.lemma_flatten_and_flatten_alt_are_equivalent();
    if sets.len() > 0 {
        let d = sets.drop_last();
        law_members_resolve_in_order(store, d, depth, visited, exclude);
        let dparts = Seq::new(d.len(), |k: int| store.resolve_as_set(d[k], depth, visited, exclude));
        dparts.lemma_flatten_and_flatten_alt_are_equivalent();
        assert(parts.drop_last() =~= dparts);
        assert(parts.last() == store.resolve_as_set(sets.last(), depth, visited, exclude));
    }
}

/// The route prefixes of a list of AS numbers are, in order, those of the
/// first AS number, then those of the second, and so on, each taken from the
/// first data source that has routes for it.
pub proof fn law_prefixes_in_order(store: &DataStore, asns: Seq<Seq<char>>, sources: Seq<Seq<char>>)
    ensures
        store.prefixes_of(asns, sources) == Seq::new(
            asns.len(),
            |k: int| match first_found(store.routes(), sources, asns[k]) {
                Some(p) => p,
                None => Seq::<Seq<char>>::empty(),
            },
        ).flatten(),
    decreases asns.len(),
{
    let parts = Seq::new(
        asns.len(),
        |k: int| match first_found(store.routes(), sources, asns[k]) {
            Some(p) => p,
            None => Seq::<Seq<char>>::empty(),
        },
    );
    parts.lemma_flatten_and_flatten_alt_are_equivalent();
    if asns.len() > 0 {
        let d = asns.drop_last();
        law_prefixes_in_order(store, d, sources);
        let dparts = Seq::new(
            d.len(),
            |k: int| match first_found(store.routes(), sources, d[k]) {
                Some(p) => p,
                None => Seq::<Seq<char>>::empty(),
            },
        );
        dparts.lemma_flatten_and_flatten_alt_are_equivalent();
        assert(parts.drop_last() =~= dparts);
    }
}

/// The entries of `members` lines are, in order, those of the first line,
/// then those of the second, and so on; the entries of one line are the
/// words, before any `#`, of each of its comma-separated pieces in turn.
pub proof fn law_member_tokens_in_order(members: Seq<Seq<char>>, pieces: Seq<Seq<char>>)
    ensures
        member_tokens(members) == Seq::new(members.len(), |i: int| piece_words(split_on(members[i], ','))).flatten(),
        piece_words(pieces) == Seq::new(pieces.len(), |j: int| words(before_first(pieces[j], '#'))).flatten(),
    decreases members.len() + pieces.len(),
{
    let lines = Seq::new(members.len(), |i: int| piece_words(split_on(members[i], ',')));
    let ws = Seq::new(pieces.len(), |j: int| words(before_first(pieces[j], '#')));
    lines.lemma_flatten_and_flatten_alt_are_equivalent();
    ws.lemma_flatten_and_flatten_alt_are_equivalent();
    if members.len() > 0 {
        let d = members.drop_last();
        law_member_tokens_in_order(d, Seq::empty());
        let dl = Seq::new(d.len(), |i: int| piece_words(split_on(d[i], ',')));
        dl.lemma_flatten_and_flatten_alt_are_equivalent();
        assert(lines.drop_last() =~= dl);
    }
    if pieces.len() > 0 {
        let d = pieces.drop_last();
        law_member_tokens_in_order(Seq::empty(), d);
        let dw = Seq::new(d.len(), |j: int| words(before_first(d[j], '#')));
        dw.lemma_flatten_and_flatten_alt_are_equivalent();
        assert(ws.drop_last() =~= dw);
    }
}

} // verus!
