//! The flat shape of the taxonomy: entries keyed by their own identifier,
//! each holding at most a parent pointer, and the algorithm that walks the
//! parent pointers into full root-to-leaf paths.

use vstd::prelude::*;
use crate::entry::CollectionEntry;
use crate::entry::EntryView;
use crate::entry::MapEntry;
use crate::entry::MapEntryView;
use crate::entry::RawRecord;
use crate::entry::RawRecordView;
use crate::entry::clone_strings;
use crate::entry::map_entry_of;
use crate::entry::record_entry;
use crate::entry::record_error_for;
use crate::entry::record_ok;
use crate::error::Error;
use crate::error::RecordError;
use crate::error::Warning;
use crate::ident::Identifier;
use crate::map::TaxonomyMap;
use crate::map::pair_views;
use crate::path::Path;
use crate::title::title_case_of;

verus! {

/// Whether some entry of `s` is named `n`.
pub open spec fn has_name(s: Seq<EntryView>, n: Seq<char>) -> bool {
    exists|i: int| 0 <= i < s.len() && s[i].name == n
}

/// The position of the entry named `n`.
pub open spec fn index_of_name(s: Seq<EntryView>, n: Seq<char>) -> int {
    choose|i: int| 0 <= i < s.len() && s[i].name == n
}

/// The entry of `s` named `n`.
pub open spec fn entry_named(s: Seq<EntryView>, n: Seq<char>) -> EntryView {
    s[index_of_name(s, n)]
}

/// No two entries share a name.
pub open spec fn unique_names(s: Seq<EntryView>) -> bool {
    forall|i: int, j: int|
        0 <= i < s.len() && 0 <= j < s.len() && i != j ==> s[i].name != s[j].name
}

/// The parent pointer as the chain walk reads it: a pointer to the entry's
/// own name counts as no parent at all.
pub open spec fn effective_parent(e: EntryView) -> Option<Seq<char>> {
    match e.parent {
        Option::None => None,
        Option::Some(p) => if p == e.name {
            None
        } else {
            Some(p)
        },
    }
}

/// The entry that position `k` of the chain `chain` for `t` stands for: `t`
/// itself at the chain's end, otherwise the entry of `s` named there.
pub open spec fn chain_entry(
    s: Seq<EntryView>,
    t: EntryView,
    chain: Seq<Seq<char>>,
    k: int,
) -> EntryView {
    if k == chain.len() - 1 {
        t
    } else {
        entry_named(s, chain[k])
    }
}

/// A chain of names ending in `t.name` in which every entry's effective
/// parent is the name before it, each resolved in `s`. The chain's head need
/// not be a root.
pub open spec fn is_partial_link(s: Seq<EntryView>, t: EntryView, chain: Seq<Seq<char>>) -> bool {
    &&& chain.len() >= 1
    &&& chain[chain.len() - 1] == t.name
    &&& forall|k: int| 0 <= k < chain.len() - 1 ==> has_name(s, #[trigger] chain[k])
    &&& forall|k: int|
        1 <= k < chain.len() ==> effective_parent(#[trigger] chain_entry(s, t, chain, k)) == Some(
            chain[k - 1],
        )
}

/// The full root-to-leaf chain for `t`: a partial chain whose head has no
/// effective parent.
pub open spec fn is_link(s: Seq<EntryView>, t: EntryView, chain: Seq<Seq<char>>) -> bool {
    is_partial_link(s, t, chain) && effective_parent(chain_entry(s, t, chain, 0)) is None
}

/// The entry `e` is one of `input`'s entries, and no later entry of `input`
/// shares its name: the occurrence that keyed insertion keeps.
pub open spec fn kept_from(input: Seq<EntryView>, e: EntryView) -> bool {
    exists|i: int|
        0 <= i < input.len() && e == #[trigger] input[i] && (forall|j: int|
            i < j < input.len() ==> input[j].name != e.name)
}

/// How a sequence inserted one by one under its name key relates to the
/// outcome: names are kept exactly, a later entry replaces an earlier one of
/// the same name, and a sequence of distinct names is kept as it is.
pub open spec fn folded(input: Seq<EntryView>, out: Seq<EntryView>) -> bool {
    &&& unique_names(out)
    &&& (forall|n: Seq<char>| #[trigger] has_name(out, n) <==> has_name(input, n))
    &&& (forall|k: int| 0 <= k < out.len() ==> kept_from(input, #[trigger] out[k]))
    &&& (unique_names(input) ==> out.len() == input.len() && (forall|i: int|
        0 <= i < input.len() ==> out[i] == #[trigger] input[i]))
}

/// The views of a vector of flat entries.
pub open spec fn entry_views(v: Seq<CollectionEntry>) -> Seq<EntryView> {
    v.map_values(|e: CollectionEntry| e@)
}

/// The entries that a vector of raw records denotes.
pub open spec fn record_entry_views(v: Seq<RawRecord>) -> Seq<EntryView> {
    v.map_values(|r: RawRecord| record_entry(r@))
}

/// The views of a vector of raw records.
pub open spec fn record_views(v: Seq<RawRecord>) -> Seq<RawRecordView> {
    v.map_values(|r: RawRecord| r@)
}

/// The titles of `rs` that are not in title case, in order: the raw texts
/// that reading the records warns about.
pub open spec fn miscased_titles(rs: Seq<RawRecordView>) -> Seq<Seq<char>>
    decreases rs.len(),
{
    if rs.len() == 0 {
        Seq::empty()
    } else {
        let rest = miscased_titles(rs.drop_last());
        if title_case_of(rs.last().title) != rs.last().title {
            rest.push(rs.last().title)
        } else {
            rest
        }
    }
}

/// The warnings `ws` are exactly the title-case warnings for the raw titles
/// `titles`, in order.
pub open spec fn title_warnings_for(ws: Seq<Warning>, titles: Seq<Seq<char>>) -> bool {
    &&& ws.len() == titles.len()
    &&& forall|j: int|
        0 <= j < ws.len() ==> ((#[trigger] ws[j]) matches Warning::TitleNotTitleCase {
            raw,
            suggested,
        } && raw@ == titles[j] && suggested@ == title_case_of(titles[j]))
}

/// The flat shape: taxonomy entries keyed by their own name.
#[derive(Debug)]
pub struct Collection {
    /// The entries; no two share a name.
    pub entries: Vec<CollectionEntry>,
}

impl View for Collection {
    type V = Seq<EntryView>;

    open spec fn view(&self) -> Seq<EntryView> {
        entry_views(self.entries@)
    }
}

impl Collection {
    /// A well-formed collection gives each name to at most one entry.
    pub open spec fn wf(&self) -> bool {
        unique_names(self@)
    }

    /// How many entries the collection has.
    pub fn len(&self) -> (r: usize)
        ensures
            r == self@.len(),
    {
        self.entries.len()
    }

    /// The entries, keyed by their `name` fields.
    pub fn entries(&self) -> (r: &Vec<CollectionEntry>)
        ensures
            entry_views(r@) == self@,
    {
        &self.entries
    }

    /// Looks the entry named `name` up.
    pub fn get(&self, name: &Identifier) -> (r: Option<&CollectionEntry>)
        requires
            self.wf(),
        ensures
            r matches Some(e) ==> has_name(self@, name@) && e@ == entry_named(self@, name@),
            r is None <==> !has_name(self@, name@),
    {
        let n = self.entries.len();
        let mut i: usize = 0;
        while i < n
            invariant
                i <= n,
                n == self@.len(),
                self.wf(),
                forall|j: int| 0 <= j < i ==> self@[j].name != name@,
            decreases n - i,
        {
            if self.entries[i].name == *name {
                proof {
                    assert(self@[i as int].name == name@);
                    let k = index_of_name(self@, name@);
                    assert(self@[k].name == name@);
                    assert(k == i as int);
                }
                return Some(&self.entries[i]);
            }
            i += 1;
        }
        None
    }

    /// Inserts `e` under its name: replaces the entry of the same name if
    /// there is one, appends otherwise.
    fn insert_entry(self, e: CollectionEntry) -> (r: Collection)
        requires
            self.wf(),
        ensures
            r.wf(),
            has_name(self@, e@.name) ==> r@ == self@.update(
                index_of_name(self@, e@.name),
                e@,
            ),
            !has_name(self@, e@.name) ==> r@ == self@.push(e@),
    {
        let ghost s0 = self@;
        let mut c = self;
        let n = c.entries.len();
        let mut i: usize = 0;
        while i < n
            invariant
                i <= n,
                n == s0.len(),
                s0 == self@,
                c@ == s0,
                c.wf(),
                forall|j: int| 0 <= j < i ==> s0[j].name != e@.name,
            decreases n - i,
        {
            if c.entries[i].name == e.name {
                proof {
                    assert(s0[i as int].name == e@.name);
                    let k = index_of_name(s0, e@.name);
                    assert(s0[k].name == e@.name);
                    assert(k == i as int);
                }
                c.entries[i] = e;
                proof {
                    assert(c@ =~~= s0.update(i as int, e@));
                    assert(c@ == s0.update(index_of_name(s0, e@.name), e@));
                    assert forall|a: int, b: int|
                        0 <= a < c@.len() && 0 <= b < c@.len() && a != b implies c@[a].name
                        != c@[b].name by {
                        assert(s0[i as int].name == e@.name);
                    }
                }
                return c;
            }
            i += 1;
        }
        c.entries.push(e);
        proof {
            assert(c@ =~~= s0.push(e@));
            assert(c@ == s0.push(e@));
            assert(!has_name(s0, e@.name));
            assert forall|a: int, b: int|
                0 <= a < c@.len() && 0 <= b < c@.len() && a != b implies c@[a].name
                != c@[b].name by {
                if a < s0.len() && b < s0.len() {
                } else if a == s0.len() {
                    assert(c@[b].name != e@.name) by {
                        if c@[b].name == e@.name {
                            assert(has_name(s0, e@.name));
                        }
                    }
                } else {
                    assert(c@[a].name != e@.name) by {
                        if c@[a].name == e@.name {
                            assert(has_name(s0, e@.name));
                        }
                    }
                }
            }
        }
        c
    }

    /// Builds a collection by inserting the entries one by one under their
    /// names; of entries that share a name the last one wins, as in a keyed
    /// store.
    pub fn from_entries(entries: Vec<CollectionEntry>) -> (r: Collection)
        ensures
            r.wf(),
            folded(entry_views(entries@), r@),
    {
        let ghost input = entry_views(entries@);
        let mut c = Collection { entries: Vec::new() };
        let n = entries.len();
        let mut i: usize = 0;
        proof {
            assert(c@ =~~= Seq::<EntryView>::empty());
            assert(input.take(0) =~~= Seq::<EntryView>::empty());
            lemma_folded_empty(input.take(0), c@);
        }
        while i < n
            invariant
                i <= n,
                n == entries@.len(),
                input == entry_views(entries@),
                c.wf(),
                folded(input.take(i as int), c@),
            decreases n - i,
        {
            let ghost pre = c@;
            let e = entries[i].clone();
            proof {
                assert(e@ == input[i as int]);
            }
            c = c.insert_entry(e);
            proof {
                assert(input.take(i + 1).drop_last() =~~= input.take(i as int));
                assert(input.take(i + 1).last() == input[i as int]);
                lemma_folded_insert(input.take(i as int), pre, c@, input[i as int]);
                assert(input.take(i as int).push(input[i as int]) =~~= input.take(i + 1));
            }
            i += 1;
        }
        proof {
            assert(input.take(n as int) =~~= input);
        }
        c
    }

    /// Turns every validated raw record into an entry and builds the
    /// collection from them, keyed insertion and all; the warnings are the
    /// title-case advisories of the records, in order. The first failing
    /// record aborts the read.
    pub fn from_records(records: &Vec<RawRecord>) -> (r: Result<
        (Collection, Vec<Warning>),
        RecordError,
    >)
        ensures
            r matches Ok((c, ws)) ==> (forall|i: int|
                0 <= i < records@.len() ==> record_ok(#[trigger] records@[i]@)) && c.wf() && folded(
                record_entry_views(records@),
                c@,
            ) && title_warnings_for(ws@, miscased_titles(record_views(records@))),
            (forall|i: int| 0 <= i < records@.len() ==> record_ok(#[trigger] records@[i]@)) ==> r
                is Ok,
            r matches Err(re) ==> exists|i: int|
                0 <= i < records@.len() && !record_ok(#[trigger] records@[i]@) && (forall|j: int|
                    0 <= j < i ==> record_ok(#[trigger] records@[j]@)) && record_error_for(
                    re,
                    records@[i]@,
                ),
    {
        let n = records.len();
        let mut entries: Vec<CollectionEntry> = Vec::new();
        let mut warnings: Vec<Warning> = Vec::new();
        let mut i: usize = 0;
        proof {
            assert(record_views(records@).take(0) =~~= Seq::<RawRecordView>::empty());
            assert(miscased_titles(record_views(records@).take(0)) =~~= Seq::<Seq<char>>::empty());
        }
        while i < n
            invariant
                i <= n,
                n == records@.len(),
                entries@.len() == i,
                forall|j: int| 0 <= j < i ==> record_ok(#[trigger] records@[j]@),
                forall|j: int| 0 <= j < i ==> entries@[j]@ == record_entry(#[trigger] records@[j]@),
                title_warnings_for(
                    warnings@,
                    miscased_titles(record_views(records@).take(i as int)),
                ),
            decreases n - i,
        {
            let ghost titles0 = miscased_titles(record_views(records@).take(i as int));
            match CollectionEntry::parse_record(&records[i]) {
                Ok((e, w)) => {
                    entries.push(e);
                    match w {
                        Some(wn) => {
                            warnings.push(wn);
                        },
                        None => {},
                    }
                    proof {
                        let rv = record_views(records@);
                        assert(rv.take(i + 1).drop_last() =~~= rv.take(i as int));
                        assert(rv.take(i + 1).last() == records@[i as int]@);
                        if title_case_of(records@[i as int]@.title) != records@[i as int]@.title {
                            assert(miscased_titles(rv.take(i + 1)) == titles0.push(
                                records@[i as int]@.title,
                            ));
                        } else {
                            assert(miscased_titles(rv.take(i + 1)) == titles0);
                        }
                    }
                },
                Err(re) => {
                    return Err(re);
                },
            }
            i += 1;
        }
        let c = Collection::from_entries(entries);
        proof {
            assert(record_views(records@).take(n as int) =~~= record_views(records@));
            assert(entry_views(entries@) =~~= record_entry_views(records@));
        }
        Ok((c, warnings))
    }

    /// Hands the collection back as plain raw records, one per entry, the
    /// fields written out as text.
    pub fn to_records(&self) -> (r: Vec<RawRecord>)
        ensures
            r@.len() == self@.len(),
            forall|i: int|
                0 <= i < self@.len() ==> (#[trigger] r@[i])@ == record_of(self@[i]),
    {
        let n = self.entries.len();
        let mut out: Vec<RawRecord> = Vec::new();
        let mut i: usize = 0;
        while i < n
            invariant
                i <= n,
                n == self@.len(),
                out@.len() == i,
                forall|j: int| 0 <= j < i ==> (#[trigger] out@[j])@ == record_of(self@[j]),
            decreases n - i,
        {
            let e = &self.entries[i];
            let parent: Option<String> = match &e.parent {
                None => None,
                Some(p) => Some(p.as_str().to_owned()),
            };
            let rec = RawRecord {
                name: e.name.as_str().to_owned(),
                parent,
                class_name: e.class_name.clone(),
                synonyms: crate::entry::clone_strings(&e.synonyms),
                title: e.title.as_str().to_owned(),
            };
            proof {
                assert(rec@ =~~= record_of(self@[i as int]));
            }
            out.push(rec);
            i += 1;
        }
        out
    }
}

/// A name `n` dangles from `t`: some parent chain from `t` ends at an entry
/// whose effective parent `n` names no entry of `s`.
pub open spec fn dangling_chain(s: Seq<EntryView>, t: EntryView, n: Seq<char>) -> bool {
    &&& !has_name(s, n)
    &&& exists|chain: Seq<Seq<char>>|
        #[trigger] is_partial_link(s, t, chain) && effective_parent(chain_entry(s, t, chain, 0))
            == Some(n)
}

/// A name `n` dangles somewhere in `s`: some entry's parent chain ends at it
/// and it names no entry.
pub open spec fn dangling_from(s: Seq<EntryView>, n: Seq<char>) -> bool {
    exists|i: int| 0 <= i < s.len() && dangling_chain(s, #[trigger] s[i], n)
}

/// The error `e` reports the dangling parent name that stopped the walk
/// from `t`.
pub open spec fn missing_error_from(s: Seq<EntryView>, t: EntryView, e: Error) -> bool {
    e matches Error::MissingEntry { name } && dangling_chain(s, t, name@)
}

/// The error `e` reports that the walk from `t` ran through `s.len() + 1`
/// linked names without finding a root: a cycle longer than a direct
/// self-reference.
pub open spec fn cycle_error_from(s: Seq<EntryView>, t: EntryView, e: Error) -> bool {
    e matches Error::CycleDetected { name } && name@ == t.name && (exists|chain: Seq<Seq<char>>|
        #[trigger] is_partial_link(s, t, chain) && chain.len() == s.len() + 1)
}

/// Two inner positions of a full chain never hold the same name: each name
/// resolves to one entry, whose effective parent pins the name before it,
/// down to the root, whose effective parent is nothing.
proof fn lemma_link_inner_distinct(
    s: Seq<EntryView>,
    t: EntryView,
    c: Seq<Seq<char>>,
    i: int,
    j: int,
)
    requires
        unique_names(s),
        is_link(s, t, c),
        0 <= i < j < c.len() - 1,
    ensures
        c[i] != c[j],
    decreases i,
{
    if c[i] == c[j] {
        assert(chain_entry(s, t, c, i) == entry_named(s, c[i]));
        assert(chain_entry(s, t, c, j) == entry_named(s, c[j]));
        if i == 0 {
            assert(effective_parent(chain_entry(s, t, c, 0)) is None);
            assert(effective_parent(chain_entry(s, t, c, j)) == Some(c[j - 1]));
        } else {
            assert(effective_parent(chain_entry(s, t, c, i)) == Some(c[i - 1]));
            assert(effective_parent(chain_entry(s, t, c, j)) == Some(c[j - 1]));
            assert(c[i - 1] == c[j - 1]);
            lemma_link_inner_distinct(s, t, c, i - 1, j - 1);
        }
    }
}

/// A full chain holds at most one name per entry of `s`, plus the walked
/// entry's own name at the end.
proof fn lemma_link_bounded(s: Seq<EntryView>, t: EntryView, c: Seq<Seq<char>>)
    requires
        unique_names(s),
        is_link(s, t, c),
    ensures
        c.len() <= s.len() + 1,
{
    let inner = c.take(c.len() - 1);
    assert forall|a: int, b: int| 0 <= a < b < inner.len() implies inner[a] != inner[b] by {
        lemma_link_inner_distinct(s, t, c, a, b);
    }
    let idxs = Seq::new(inner.len(), |k: int| index_of_name(s, inner[k]));
    assert forall|a: int, b: int| 0 <= a < b < idxs.len() implies idxs[a] != idxs[b] by {
        assert(has_name(s, c[a]));
        assert(has_name(s, c[b]));
        assert(s[index_of_name(s, inner[a])].name == inner[a]);
        assert(s[index_of_name(s, inner[b])].name == inner[b]);
    }
    assert(idxs.no_duplicates()) by {
        assert forall|a: int, b: int|
            0 <= a < idxs.len() && 0 <= b < idxs.len() && a != b implies idxs[a] != idxs[b] by {
            if a < b {
            } else {
                assert(idxs[b] != idxs[a]);
            }
        }
    }
    idxs.unique_seq_to_set();
    assert forall|x: int| idxs.to_set().contains(x) implies vstd::set_lib::set_int_range(
        0,
        s.len() as int,
    ).contains(x) by {
        let k = choose|k: int| 0 <= k < idxs.len() && idxs[k] == x;
        assert(has_name(s, inner[k]));
        assert(0 <= index_of_name(s, inner[k]) < s.len());
    }
    vstd::set_lib::lemma_int_range(0, s.len() as int);
    vstd::set_lib::lemma_len_subset(
        idxs.to_set(),
        vstd::set_lib::set_int_range(0, s.len() as int),
    );
}

/// The warning `w` truthfully reports a self-referential parent pointer of
/// some entry of `s`.
pub open spec fn self_loop_warning_ok(s: Seq<EntryView>, w: Warning) -> bool {
    w matches Warning::SelfReferentialParent { name } && has_name(s, name@) && entry_named(
        s,
        name@,
    ).parent == Some(name@)
}

/// The warning `w` is the self-loop advisory for the name `n`.
pub open spec fn self_loop_warning_named(w: Warning, n: Seq<char>) -> bool {
    w matches Warning::SelfReferentialParent { name } && name@ == n
}

/// The warnings `ws` are sound (each reports a real self-referential parent)
/// and complete (every entry whose parent points at itself is reported).
pub open spec fn self_loop_warnings(s: Seq<EntryView>, ws: Seq<Warning>) -> bool {
    &&& (forall|q: int| 0 <= q < ws.len() ==> self_loop_warning_ok(s, #[trigger] ws[q]))
    &&& (forall|i: int|
        0 <= i < s.len() && (#[trigger] s[i]).parent == Some(s[i].name) ==> exists|q: int|
            0 <= q < ws.len() && self_loop_warning_named(ws[q], s[i].name))
}

/// The map `m` pairs each entry of `s`, in order, with its full chain as the
/// key and its carried fields as the value.
pub open spec fn map_of(s: Seq<EntryView>, m: Seq<(Seq<Seq<char>>, MapEntryView)>) -> bool {
    &&& m.len() == s.len()
    &&& forall|i: int|
        0 <= i < s.len() ==> is_link(s, s[i], (#[trigger] m[i]).0) && m[i].1 == map_entry_of(s[i])
}

/// The walk's partial chain, extended by the effective parent of its head,
/// stays a suffix of any full chain; so the head's parent is resolvable
/// wherever a full chain exists at all.
proof fn lemma_witness_step(
    s: Seq<EntryView>,
    t: EntryView,
    chain: Seq<Seq<char>>,
    c: Seq<Seq<char>>,
    cur: EntryView,
    pn: Seq<char>,
)
    requires
        is_partial_link(s, t, chain),
        chain_entry(s, t, chain, 0) == cur,
        effective_parent(cur) == Some(pn),
        is_link(s, t, c),
        chain.len() <= c.len(),
        c.skip(c.len() - chain.len()) == chain,
    ensures
        c.len() - chain.len() >= 1,
        c[c.len() - chain.len() - 1] == pn,
        has_name(s, pn),
        c.skip(c.len() - chain.len() - 1) == seq![pn] + chain,
{
    let k0 = c.len() - chain.len();
    assert(c.skip(k0)[0] == c[k0]);
    assert(chain[0] == c[k0]);
    if k0 == c.len() - 1 {
        assert(chain.len() == 1);
        assert(chain_entry(s, t, chain, 0) == t);
        assert(chain_entry(s, t, c, k0) == t);
    } else {
        assert(chain.len() >= 2);
        assert(chain_entry(s, t, chain, 0) == entry_named(s, chain[0]));
        assert(chain_entry(s, t, c, k0) == entry_named(s, c[k0]));
    }
    assert(chain_entry(s, t, c, k0) == cur);
    if k0 == 0 {
        assert(effective_parent(chain_entry(s, t, c, 0)) is None);
        assert(false);
    }
    assert(effective_parent(chain_entry(s, t, c, k0)) == Some(c[k0 - 1]));
    assert(c[k0 - 1] == pn);
    assert(0 <= k0 - 1 < c.len() - 1);
    assert(has_name(s, c[k0 - 1]));
    assert(c.skip(k0 - 1) =~~= seq![pn] + chain) by {
        assert forall|x: int| 0 <= x < c.len() - (k0 - 1) implies c.skip(k0 - 1)[x] == (seq![pn]
            + chain)[x] by {
            assert(c.skip(k0 - 1)[x] == c[k0 - 1 + x]);
            if x == 0 {
            } else {
                assert(c.skip(k0)[x - 1] == c[k0 + x - 1]);
            }
        }
    }
}

/// The dangling name reported for `t` dangles in `s` when `t` is an entry
/// of `s`.
proof fn lemma_missing_lifts(s: Seq<EntryView>, i: int, e: Error)
    requires
        0 <= i < s.len(),
        missing_error_from(s, s[i], e),
    ensures
        e matches Error::MissingEntry { name } && dangling_from(s, name@),
{
    match e {
        Error::MissingEntry { name } => {
            assert(dangling_chain(s, s[i], name@));
        },
        _ => {},
    }
}

impl Collection {
    /// Builds the path from the walked names, which sit leaf-first in `rev`.
    fn reversed_path(rev: &Vec<Identifier>) -> (p: Path)
        ensures
            p@.len() == rev@.len(),
            forall|k: int| 0 <= k < rev@.len() ==> p@[k] == rev@[rev@.len() - 1 - k]@,
    {
        let mut segs: Vec<Identifier> = Vec::new();
        let n = rev.len();
        let mut i: usize = 0;
        while i < n
            invariant
                i <= n,
                n == rev@.len(),
                segs@.len() == i,
                forall|j: int| 0 <= j < i ==> segs@[j]@ == rev@[n - 1 - j]@,
            decreases n - i,
        {
            segs.push(rev[n - 1 - i].clone());
            i += 1;
        }
        Path::from_segments(segs)
    }

    /// Walks the parent pointers outward from `t` and returns `t`'s full
    /// root-to-leaf path. A parent pointer that names the walked entry
    /// itself ends the walk with a warning, as if the entry were a root; a
    /// parent name that resolves to no entry fails with the dangling name.
    /// The walk gives up after as many steps as the collection has entries,
    /// which only a parent cycle longer than a direct self-reference can
    /// force: that fails with a cycle error instead of running forever.
    pub fn full_path(&self, t: &CollectionEntry) -> (r: Result<(Path, Option<Warning>), Error>)
        requires
            self.wf(),
        ensures
            r matches Ok((p, w)) ==> is_link(self@, t@, p@) && (match w {
                Option::None => chain_entry(self@, t@, p@, 0).parent is None,
                Option::Some(wn) => wn matches Warning::SelfReferentialParent { name } && name@
                    == p@[0] && chain_entry(self@, t@, p@, 0).parent == Some(name@),
            }),
            r matches Err(e) ==> missing_error_from(self@, t@, e) || cycle_error_from(
                self@,
                t@,
                e,
            ),
            (exists|c: Seq<Seq<char>>| is_link(self@, t@, c)) ==> r is Ok,
    {
        let ghost s = self@;
        let mut rev: Vec<Identifier> = Vec::new();
        rev.push(t.name.clone());
        let mut cur: &CollectionEntry = t;
        let ghost mut chain: Seq<Seq<char>> = seq![t@.name];
        proof {
            assert(chain[0] == rev@[0]@);
            assert(is_partial_link(s, t@, chain));
            assert(chain_entry(s, t@, chain, 0) == t@);
            assert forall|c: Seq<Seq<char>>| #[trigger] is_link(s, t@, c) implies chain.len()
                <= c.len() && c.skip(c.len() - chain.len()) == chain by {
                assert(c.skip(c.len() - 1) =~~= chain);
            }
        }
        let n = self.entries.len();
        let mut pushes: usize = 0;
        while pushes <= n
            invariant
                self.wf(),
                s == self@,
                n == s.len(),
                pushes <= n,
                chain.len() == pushes + 1,
                chain.len() == rev@.len(),
                forall|k: int| 0 <= k < chain.len() ==> chain[k] == rev@[chain.len() - 1 - k]@,
                is_partial_link(s, t@, chain),
                chain_entry(s, t@, chain, 0) == cur@,
                forall|c: Seq<Seq<char>>| #[trigger] is_link(s, t@, c) ==> chain.len() <= c.len()
                    && c.skip(c.len() - chain.len()) == chain,
            decreases n - pushes,
        {
            match &cur.parent {
                None => {
                    let p = Self::reversed_path(&rev);
                    proof {
                        assert(p@ =~~= chain);
                        assert(effective_parent(cur@) is None);
                    }
                    return Ok((p, None));
                },
                Some(parent_name) => {
                    if *parent_name == cur.name {
                        let p = Self::reversed_path(&rev);
                        let w = Warning::SelfReferentialParent {
                            name: parent_name.as_str().to_owned(),
                        };
                        proof {
                            assert(p@ =~~= chain);
                            assert(parent_name@ == cur@.name);
                            assert(effective_parent(cur@) is None);
                            assert(cur@.name == chain[0]) by {
                                if chain.len() == 1 {
                                } else {
                                    assert(has_name(s, chain[0]));
                                    let idx = index_of_name(s, chain[0]);
                                    assert(s[idx].name == chain[0]);
                                }
                            }
                        }
                        return Ok((p, Some(w)));
                    }
                    proof {
                        assert(parent_name@ != cur@.name);
                        assert(effective_parent(cur@) == Some(parent_name@));
                    }
                    if pushes == n {
                        proof {
                            if exists|c: Seq<Seq<char>>| is_link(s, t@, c) {
                                let c = choose|c: Seq<Seq<char>>| is_link(s, t@, c);
                                lemma_link_bounded(s, t@, c);
                                assert(chain.len() == c.len());
                                assert(c.skip(0) =~~= c);
                                assert(chain == c);
                                assert(effective_parent(chain_entry(s, t@, c, 0)) is None);
                                assert(false);
                            }
                        }
                        return Err(Error::CycleDetected { name: t.name.as_str().to_owned() });
                    }
                    match self.get(parent_name) {
                        None => {
                            proof {
                                assert(!has_name(s, parent_name@));
                                assert(dangling_chain(s, t@, parent_name@));
                                if exists|c: Seq<Seq<char>>| is_link(s, t@, c) {
                                    let c = choose|c: Seq<Seq<char>>| is_link(s, t@, c);
                                    lemma_witness_step(s, t@, chain, c, cur@, parent_name@);
                                    assert(false);
                                }
                            }
                            return Err(
                                Error::MissingEntry { name: parent_name.as_str().to_owned() },
                            );
                        },
                        Some(next) => {
                            let ghost chain0 = chain;
                            let ghost pn = parent_name@;
                            rev.push(next.name.clone());
                            pushes += 1;
                            proof {
                                assert(next@ == entry_named(s, pn));
                                assert(entry_named(s, pn).name == pn) by {
                                    let idx = index_of_name(s, pn);
                                    assert(s[idx].name == pn);
                                }
                                chain = seq![pn] + chain0;
                                assert(chain.len() == rev@.len());
                                assert forall|k: int| 0 <= k < chain.len() implies chain[k]
                                    == rev@[chain.len() - 1 - k]@ by {
                                    if k == 0 {
                                        assert(rev@[rev@.len() - 1]@ == next@.name);
                                    } else {
                                        assert(chain[k] == chain0[k - 1]);
                                        assert(rev@[chain.len() - 1 - k] == rev@.drop_last()[chain0.len()
                                            - 1 - (k - 1)]);
                                    }
                                }
                                assert(chain[chain.len() - 1] == chain0[chain0.len() - 1]);
                                assert forall|k: int| 0 <= k < chain.len() - 1 implies has_name(
                                    s,
                                    #[trigger] chain[k],
                                ) by {
                                    if k == 0 {
                                        assert(chain[0] == pn);
                                    } else {
                                        assert(chain[k] == chain0[k - 1]);
                                    }
                                }
                                assert(chain0[0] == cur@.name) by {
                                    if chain0.len() == 1 {
                                    } else {
                                        assert(has_name(s, chain0[0]));
                                        let idx = index_of_name(s, chain0[0]);
                                        assert(s[idx].name == chain0[0]);
                                    }
                                }
                                assert forall|k: int| 1 <= k < chain.len() implies effective_parent(
                                    #[trigger] chain_entry(s, t@, chain, k),
                                ) == Some(chain[k - 1]) by {
                                    if k == chain.len() - 1 {
                                        assert(chain_entry(s, t@, chain, k) == t@);
                                        if chain0.len() == 1 {
                                            assert(chain_entry(s, t@, chain0, 0) == t@);
                                            assert(chain[k - 1] == chain[0]);
                                        } else {
                                            assert(chain_entry(s, t@, chain0, chain0.len() - 1)
                                                == t@);
                                            assert(effective_parent(t@) == Some(chain0[chain0.len()
                                                - 2]));
                                            assert(chain[k - 1] == chain0[k - 2]);
                                        }
                                    } else if k == 1 {
                                        assert(chain.len() >= 3);
                                        assert(chain0.len() >= 2);
                                        assert(chain[1] == chain0[0]);
                                        assert(chain_entry(s, t@, chain, 1) == entry_named(
                                            s,
                                            chain0[0],
                                        ));
                                        assert(chain_entry(s, t@, chain0, 0) == entry_named(
                                            s,
                                            chain0[0],
                                        ));
                                        assert(effective_parent(cur@) == Some(pn));
                                        assert(chain[0] == pn);
                                    } else {
                                        assert(chain[k] == chain0[k - 1]);
                                        assert(1 <= k - 1 < chain0.len() - 1);
                                        assert(chain_entry(s, t@, chain, k) == entry_named(
                                            s,
                                            chain0[k - 1],
                                        ));
                                        assert(chain_entry(s, t@, chain0, k - 1) == entry_named(
                                            s,
                                            chain0[k - 1],
                                        ));
                                        assert(effective_parent(chain_entry(s, t@, chain0, k - 1))
                                            == Some(chain0[k - 2]));
                                        assert(chain[k - 1] == chain0[k - 2]);
                                    }
                                }
                                assert(is_partial_link(s, t@, chain));
                                assert(chain_entry(s, t@, chain, 0) == next@) by {
                                    assert(chain.len() >= 2);
                                    assert(chain[0] == pn);
                                }
                                assert forall|c: Seq<Seq<char>>| #[trigger] is_link(s, t@, c) implies chain.len()
                                    <= c.len() && c.skip(c.len() - chain.len()) == chain by {
                                    lemma_witness_step(s, t@, chain0, c, cur@, pn);
                                    assert(seq![pn] + chain0 == chain);
                                }
                            }
                            cur = next;
                        },
                    }
                },
            }
        }
        Err(Error::CycleDetected { name: t.name.as_str().to_owned() })
    }

    /// Computes every entry's full path and keys the carried fields by it:
    /// the editable, path-keyed form of the whole collection, along with the
    /// self-loop advisories the walks raised. The first dangling parent or
    /// parent cycle aborts the conversion.
    pub fn to_map(&self) -> (r: Result<(TaxonomyMap, Vec<Warning>), Error>)
        requires
            self.wf(),
        ensures
            r matches Ok((m, ws)) ==> m.wf() && map_of(self@, m@) && self_loop_warnings(
                self@,
                ws@,
            ),
            r matches Err(e) ==> (e matches Error::MissingEntry { name } && dangling_from(
                self@,
                name@,
            )) || (exists|i: int| 0 <= i < self@.len() && cycle_error_from(self@, #[trigger] self@[i], e)),
            (forall|i: int|
                0 <= i < self@.len() ==> exists|c: Seq<Seq<char>>|
                    is_link(self@, #[trigger] self@[i], c)) ==> r is Ok,
    {
        let ghost s = self@;
        let mut pairs: Vec<(Path, MapEntry)> = Vec::new();
        let mut warnings: Vec<Warning> = Vec::new();
        let n = self.entries.len();
        let mut i: usize = 0;
        while i < n
            invariant
                i <= n,
                n == s.len(),
                s == self@,
                self.wf(),
                pairs@.len() == i,
                forall|j: int|
                    0 <= j < i ==> is_link(s, s[j], (#[trigger] pair_views(pairs@)[j]).0)
                        && pair_views(pairs@)[j].1 == map_entry_of(s[j]),
                forall|q: int|
                    0 <= q < warnings@.len() ==> self_loop_warning_ok(s, #[trigger] warnings@[q]),
                forall|j: int|
                    0 <= j < i && (#[trigger] s[j]).parent == Some(s[j].name) ==> exists|q: int|
                        0 <= q < warnings@.len() && self_loop_warning_named(
                            warnings@[q],
                            s[j].name,
                        ),
            decreases n - i,
        {
            let t = &self.entries[i];
            proof {
                assert(t@ == s[i as int]);
            }
            match self.full_path(t) {
                Err(e) => {
                    proof {
                        if missing_error_from(s, s[i as int], e) {
                            lemma_missing_lifts(s, i as int, e);
                        } else {
                            assert(cycle_error_from(s, s[i as int], e));
                        }
                        assert(!(exists|c: Seq<Seq<char>>| is_link(s, s[i as int], c))) by {
                            if exists|c: Seq<Seq<char>>| is_link(s, s[i as int], c) {
                                let c = choose|c: Seq<Seq<char>>| is_link(s, s[i as int], c);
                                assert(false);
                            }
                        }
                    }
                    return Err(e);
                },
                Ok((p, w)) => {
                    let me = MapEntry {
                        class_name: t.class_name.clone(),
                        synonyms: clone_strings(&t.synonyms),
                        title: t.title.clone(),
                    };
                    proof {
                        assert(me@ =~~= map_entry_of(s[i as int]));
                    }
                    let ghost pairs0 = pair_views(pairs@);
                    let ghost pview = p@;
                    pairs.push((p, me));
                    proof {
                        assert(pair_views(pairs@) =~~= pairs0.push((pview, map_entry_of(
                            s[i as int],
                        ))));
                    }
                    let ghost warnings0 = warnings@;
                    match w {
                        Some(wn) => {
                            proof {
                                assert(self_loop_warning_ok(s, wn)) by {
                                    if pview.len() == 1 {
                                        assert(chain_entry(s, s[i as int], pview, 0) == s[i as int]);
                                        assert(has_name(s, s[i as int].name));
                                        let idx = index_of_name(s, s[i as int].name);
                                        assert(s[idx].name == s[i as int].name);
                                        assert(idx == i as int);
                                    } else {
                                        assert(has_name(s, pview[0]));
                                        assert(chain_entry(s, s[i as int], pview, 0) == entry_named(
                                            s,
                                            pview[0],
                                        ));
                                    }
                                }
                            }
                            proof {
                                if s[i as int].parent == Some(s[i as int].name) {
                                    assert(effective_parent(s[i as int]) is None);
                                    if pview.len() >= 2 {
                                        assert(chain_entry(s, s[i as int], pview, pview.len() - 1)
                                            == s[i as int]);
                                        assert(effective_parent(s[i as int]) == Some(
                                            pview[pview.len() - 2],
                                        ));
                                    }
                                    assert(pview.len() == 1);
                                    assert(pview[0] == s[i as int].name);
                                }
                            }
                            warnings.push(wn);
                            proof {
                                assert forall|j: int|
                                    0 <= j < i + 1 && (#[trigger] s[j]).parent == Some(
                                        s[j].name,
                                    ) implies exists|q: int|
                                    0 <= q < warnings@.len() && self_loop_warning_named(
                                        warnings@[q],
                                        s[j].name,
                                    ) by {
                                    if j < i {
                                        let q0 = choose|q0: int|
                                            0 <= q0 < warnings0.len() && self_loop_warning_named(
                                                warnings0[q0],
                                                s[j].name,
                                            );
                                        assert(warnings@[q0] == warnings0[q0]);
                                    } else {
                                        let q1 = warnings@.len() - 1;
                                        assert(self_loop_warning_named(warnings@[q1], s[j].name));
                                    }
                                }
                            }
                        },
                        None => {
                            proof {
                                if s[i as int].parent == Some(s[i as int].name) {
                                    assert(effective_parent(s[i as int]) is None);
                                    if pview.len() >= 2 {
                                        assert(chain_entry(s, s[i as int], pview, pview.len() - 1)
                                            == s[i as int]);
                                        assert(effective_parent(s[i as int]) == Some(
                                            pview[pview.len() - 2],
                                        ));
                                        assert(false);
                                    }
                                    assert(chain_entry(s, s[i as int], pview, 0) == s[i as int]);
                                    assert(false);
                                }
                            }
                        },
                    }
                },
            }
            i += 1;
        }
        proof {
            assert forall|a: int, b: int|
                0 <= a < pair_views(pairs@).len() && 0 <= b < pair_views(pairs@).len() && a
                != b implies (#[trigger] pair_views(pairs@)[a]).0 != (#[trigger] pair_views(
                pairs@,
            )[b]).0 by {
                let pa = pair_views(pairs@)[a].0;
                let pb = pair_views(pairs@)[b].0;
                assert(is_link(s, s[a], pa));
                assert(is_link(s, s[b], pb));
                assert(pa[pa.len() - 1] == s[a].name);
                assert(pb[pb.len() - 1] == s[b].name);
                assert(s[a].name != s[b].name);
            }
        }
        Ok((TaxonomyMap { entries: pairs }, warnings))
    }
}

/// The raw record that writes a flat entry out, field for field.
pub open spec fn record_of(e: EntryView) -> RawRecordView {
    RawRecordView {
        name: e.name,
        parent: e.parent,
        class_name: e.class_name,
        synonyms: e.synonyms,
        title: e.title,
    }
}

/// The empty sequence folds to the empty outcome.
proof fn lemma_folded_empty(input: Seq<EntryView>, out: Seq<EntryView>)
    requires
        input.len() == 0,
        out.len() == 0,
    ensures
        folded(input, out),
{
    assert forall|n: Seq<char>| #[trigger] has_name(out, n) <==> has_name(input, n) by {}
}

/// One keyed insertion extends the fold relation by one input entry.
proof fn lemma_folded_insert(
    input: Seq<EntryView>,
    pre: Seq<EntryView>,
    post: Seq<EntryView>,
    e: EntryView,
)
    requires
        folded(input, pre),
        unique_names(pre),
        has_name(pre, e.name) ==> post == pre.update(index_of_name(pre, e.name), e),
        !has_name(pre, e.name) ==> post == pre.push(e),
    ensures
        folded(input.push(e), post),
{
    let input1 = input.push(e);
    assert(input1.drop_last() =~~= input);
    if has_name(pre, e.name) {
        let idx = index_of_name(pre, e.name);
        assert(0 <= idx < pre.len() && pre[idx].name == e.name);
        // names are unchanged position by position
        assert forall|a: int, b: int|
            0 <= a < post.len() && 0 <= b < post.len() && a != b implies post[a].name
            != post[b].name by {
            assert(post[a].name == pre[a].name);
            assert(post[b].name == pre[b].name);
        }
        assert forall|n: Seq<char>| #[trigger] has_name(post, n) <==> has_name(input1, n) by {
            if has_name(post, n) {
                let w = choose|w: int| 0 <= w < post.len() && post[w].name == n;
                assert(pre[w].name == n);
                assert(has_name(pre, n));
                assert(has_name(input, n));
                let v = choose|v: int| 0 <= v < input.len() && input[v].name == n;
                assert(input1[v].name == n);
            }
            if has_name(input1, n) {
                let v = choose|v: int| 0 <= v < input1.len() && input1[v].name == n;
                if v < input.len() {
                    assert(has_name(input, n));
                    assert(has_name(pre, n));
                    let w = choose|w: int| 0 <= w < pre.len() && pre[w].name == n;
                    assert(post[w].name == n);
                } else {
                    assert(input1[v] == e);
                    assert(post[idx].name == n);
                }
            }
        }
        assert forall|k: int| 0 <= k < post.len() implies kept_from(input1, #[trigger] post[k]) by {
            if k == idx {
                assert(post[k] == e);
                assert(input1[input1.len() - 1] == e);
                assert(kept_from(input1, post[k]));
            } else {
                assert(post[k] == pre[k]);
                let w = choose|w: int|
                    0 <= w < input.len() && pre[k] == input[w] && (forall|j: int|
                        w < j < input.len() ==> input[j].name != pre[k].name);
                assert(input1[w] == pre[k]);
                // the new last entry has a different name
                assert(pre[k].name != e.name) by {
                    assert(pre[idx].name == e.name);
                }
                assert(kept_from(input1, post[k]));
            }
        }
        // a duplicate name means the grown input is not uniquely named
        if unique_names(input1) {
            assert(has_name(input, e.name));
            let v = choose|v: int| 0 <= v < input.len() && input[v].name == e.name;
            assert(input1[v].name == input1[input1.len() - 1].name);
            assert(false);
        }
    } else {
        assert(post =~~= pre.push(e));
        assert forall|a: int, b: int|
            0 <= a < post.len() && 0 <= b < post.len() && a != b implies post[a].name
            != post[b].name by {
            if a == pre.len() {
                if post[b].name == e.name {
                    assert(has_name(pre, e.name));
                }
            } else if b == pre.len() {
                if post[a].name == e.name {
                    assert(has_name(pre, e.name));
                }
            }
        }
        assert forall|n: Seq<char>| #[trigger] has_name(post, n) <==> has_name(input1, n) by {
            if has_name(post, n) {
                let w = choose|w: int| 0 <= w < post.len() && post[w].name == n;
                if w < pre.len() {
                    assert(has_name(pre, n));
                    assert(has_name(input, n));
                    let v = choose|v: int| 0 <= v < input.len() && input[v].name == n;
                    assert(input1[v].name == n);
                } else {
                    assert(input1[input1.len() - 1].name == n);
                }
            }
            if has_name(input1, n) {
                let v = choose|v: int| 0 <= v < input1.len() && input1[v].name == n;
                if v < input.len() {
                    assert(has_name(input, n));
                    assert(has_name(pre, n));
                    let w = choose|w: int| 0 <= w < pre.len() && pre[w].name == n;
                    assert(post[w].name == n);
                } else {
                    assert(post[post.len() - 1].name == n);
                }
            }
        }
        assert forall|k: int| 0 <= k < post.len() implies kept_from(input1, #[trigger] post[k]) by {
            if k == pre.len() {
                assert(post[k] == e);
                assert(input1[input1.len() - 1] == e);
                assert(kept_from(input1, post[k]));
            } else {
                assert(post[k] == pre[k]);
                let w = choose|w: int|
                    0 <= w < input.len() && pre[k] == input[w] && (forall|j: int|
                        w < j < input.len() ==> input[j].name != pre[k].name);
                assert(input1[w] == pre[k]);
                assert(pre[k].name != e.name) by {
                    if pre[k].name == e.name {
                        assert(has_name(pre, e.name));
                    }
                }
                assert(kept_from(input1, post[k]));
            }
        }
        if unique_names(input1) {
            assert(unique_names(input)) by {
                assert forall|a: int, b: int|
                    0 <= a < input.len() && 0 <= b < input.len() && a != b implies input[a].name
                    != input[b].name by {
                    assert(input1[a] == input[a]);
                    assert(input1[b] == input[b]);
                }
            }
            assert(post.len() == input1.len());
            assert forall|v: int| 0 <= v < input1.len() implies post[v] == #[trigger] input1[v] by {
                if v < input.len() {
                    assert(pre[v] == input[v]);
                }
            }
        }
    }
}

} // verus!
