//! The path-keyed shape of the taxonomy: entries keyed by their full
//! root-to-leaf path, and the algorithm that decomposes the paths back into
//! flat parent-pointer entries.

use vstd::prelude::*;
use crate::collection::Collection;
use crate::collection::chain_entry;
use crate::collection::effective_parent;
use crate::collection::entry_views;
use crate::collection::folded;
use crate::collection::is_link;
use crate::collection::map_of;
use crate::collection::unique_names;
use crate::entry::CollectionEntry;
use crate::entry::EntryView;
use crate::entry::MapEntry;
use crate::entry::MapEntryView;
use crate::entry::map_entry_of;
use crate::error::Error;
use crate::path::Path;

verus! {

/// The views of a vector of path-keyed pairs.
pub open spec fn pair_views(v: Seq<(Path, MapEntry)>) -> Seq<(Seq<Seq<char>>, MapEntryView)> {
    v.map_values(|p: (Path, MapEntry)| (p.0@, p.1@))
}

/// No two pairs share a path key.
pub open spec fn unique_paths(m: Seq<(Seq<Seq<char>>, MapEntryView)>) -> bool {
    forall|i: int, j: int|
        0 <= i < m.len() && 0 <= j < m.len() && i != j ==> m[i].0 != m[j].0
}

/// Whether some pair of `m` is keyed by `key`.
pub open spec fn has_path(m: Seq<(Seq<Seq<char>>, MapEntryView)>, key: Seq<Seq<char>>) -> bool {
    exists|i: int| 0 <= i < m.len() && m[i].0 == key
}

/// The position of the pair keyed by `key`.
pub open spec fn index_of_path(m: Seq<(Seq<Seq<char>>, MapEntryView)>, key: Seq<Seq<char>>) -> int {
    choose|i: int| 0 <= i < m.len() && m[i].0 == key
}

/// The pair `p` is one of `input`'s pairs, and no later pair of `input`
/// shares its path: the occurrence that keyed insertion keeps.
pub open spec fn kept_pair_from(
    input: Seq<(Seq<Seq<char>>, MapEntryView)>,
    p: (Seq<Seq<char>>, MapEntryView),
) -> bool {
    exists|i: int|
        0 <= i < input.len() && p == #[trigger] input[i] && (forall|j: int|
            i < j < input.len() ==> input[j].0 != p.0)
}

/// How a sequence of pairs inserted one by one under the path key relates to
/// the outcome: paths are kept exactly, a later pair replaces an earlier one
/// of the same path, and a sequence of distinct paths is kept as it is.
pub open spec fn pairs_folded(
    input: Seq<(Seq<Seq<char>>, MapEntryView)>,
    out: Seq<(Seq<Seq<char>>, MapEntryView)>,
) -> bool {
    &&& unique_paths(out)
    &&& (forall|key: Seq<Seq<char>>| #[trigger] has_path(out, key) <==> has_path(input, key))
    &&& (forall|k: int| 0 <= k < out.len() ==> kept_pair_from(input, #[trigger] out[k]))
    &&& (unique_paths(input) ==> out.len() == input.len() && (forall|i: int|
        0 <= i < input.len() ==> out[i] == #[trigger] input[i]))
}

/// One keyed insertion extends the fold relation by one input pair.
proof fn lemma_pairs_insert(
    input: Seq<(Seq<Seq<char>>, MapEntryView)>,
    pre: Seq<(Seq<Seq<char>>, MapEntryView)>,
    post: Seq<(Seq<Seq<char>>, MapEntryView)>,
    p: (Seq<Seq<char>>, MapEntryView),
)
    requires
        pairs_folded(input, pre),
        has_path(pre, p.0) ==> post == pre.update(index_of_path(pre, p.0), p),
        !has_path(pre, p.0) ==> post == pre.push(p),
    ensures
        pairs_folded(input.push(p), post),
{
    let input1 = input.push(p);
    assert(input1.drop_last() =~~= input);
    if has_path(pre, p.0) {
        let idx = index_of_path(pre, p.0);
        assert(0 <= idx < pre.len() && pre[idx].0 == p.0);
        assert forall|a: int, b: int|
            0 <= a < post.len() && 0 <= b < post.len() && a != b implies post[a].0 != post[b].0 by {
            assert(post[a].0 == pre[a].0);
            assert(post[b].0 == pre[b].0);
        }
        assert forall|key: Seq<Seq<char>>| #[trigger] has_path(post, key) <==> has_path(
            input1,
            key,
        ) by {
            if has_path(post, key) {
                let w = choose|w: int| 0 <= w < post.len() && post[w].0 == key;
                assert(pre[w].0 == key);
                assert(has_path(pre, key));
                assert(has_path(input, key));
                let v = choose|v: int| 0 <= v < input.len() && input[v].0 == key;
                assert(input1[v].0 == key);
            }
            if has_path(input1, key) {
                let v = choose|v: int| 0 <= v < input1.len() && input1[v].0 == key;
                if v < input.len() {
                    assert(has_path(input, key));
                    assert(has_path(pre, key));
                    let w = choose|w: int| 0 <= w < pre.len() && pre[w].0 == key;
                    assert(post[w].0 == key);
                } else {
                    assert(input1[v] == p);
                    assert(post[idx].0 == key);
                }
            }
        }
        assert forall|k: int| 0 <= k < post.len() implies kept_pair_from(
            input1,
            #[trigger] post[k],
        ) by {
            if k == idx {
                assert(post[k] == p);
                assert(input1[input1.len() - 1] == p);
                assert(kept_pair_from(input1, post[k]));
            } else {
                assert(post[k] == pre[k]);
                let w = choose|w: int|
                    0 <= w < input.len() && pre[k] == input[w] && (forall|j: int|
                        w < j < input.len() ==> input[j].0 != pre[k].0);
                assert(input1[w] == pre[k]);
                assert(pre[k].0 != p.0) by {
                    assert(pre[idx].0 == p.0);
                }
                assert(kept_pair_from(input1, post[k]));
            }
        }
        if unique_paths(input1) {
            assert(has_path(input, p.0));
            let v = choose|v: int| 0 <= v < input.len() && input[v].0 == p.0;
            assert(input1[v].0 == input1[input1.len() - 1].0);
            assert(false);
        }
    } else {
        assert(post =~~= pre.push(p));
        assert forall|a: int, b: int|
            0 <= a < post.len() && 0 <= b < post.len() && a != b implies post[a].0 != post[b].0 by {
            if a == pre.len() {
                if post[b].0 == p.0 {
                    assert(has_path(pre, p.0));
                }
            } else if b == pre.len() {
                if post[a].0 == p.0 {
                    assert(has_path(pre, p.0));
                }
            }
        }
        assert forall|key: Seq<Seq<char>>| #[trigger] has_path(post, key) <==> has_path(
            input1,
            key,
        ) by {
            if has_path(post, key) {
                let w = choose|w: int| 0 <= w < post.len() && post[w].0 == key;
                if w < pre.len() {
                    assert(has_path(pre, key));
                    assert(has_path(input, key));
                    let v = choose|v: int| 0 <= v < input.len() && input[v].0 == key;
                    assert(input1[v].0 == key);
                } else {
                    assert(input1[input1.len() - 1].0 == key);
                }
            }
            if has_path(input1, key) {
                let v = choose|v: int| 0 <= v < input1.len() && input1[v].0 == key;
                if v < input.len() {
                    assert(has_path(input, key));
                    assert(has_path(pre, key));
                    let w = choose|w: int| 0 <= w < pre.len() && pre[w].0 == key;
                    assert(post[w].0 == key);
                } else {
                    assert(post[post.len() - 1].0 == key);
                }
            }
        }
        assert forall|k: int| 0 <= k < post.len() implies kept_pair_from(
            input1,
            #[trigger] post[k],
        ) by {
            if k == pre.len() {
                assert(post[k] == p);
                assert(input1[input1.len() - 1] == p);
                assert(kept_pair_from(input1, post[k]));
            } else {
                assert(post[k] == pre[k]);
                let w = choose|w: int|
                    0 <= w < input.len() && pre[k] == input[w] && (forall|j: int|
                        w < j < input.len() ==> input[j].0 != pre[k].0);
                assert(input1[w] == pre[k]);
                assert(pre[k].0 != p.0) by {
                    if pre[k].0 == p.0 {
                        assert(has_path(pre, p.0));
                    }
                }
                assert(kept_pair_from(input1, post[k]));
            }
        }
        if unique_paths(input1) {
            assert(unique_paths(input)) by {
                assert forall|a: int, b: int|
                    0 <= a < input.len() && 0 <= b < input.len() && a != b implies input[a].0
                    != input[b].0 by {
                    assert(input1[a] == input[a]);
                    assert(input1[b] == input[b]);
                }
            }
            assert(post.len() == input1.len());
            assert forall|v: int| 0 <= v < input1.len() implies post[v] == #[trigger] input1[v] by {
                if v < input.len() {
                    assert(pre[v] == input[v]);
                }
            }
        }
    }
}

/// The flat entry that a path-keyed pair denotes: the name is the path's
/// last segment, the parent its second-to-last, and the carried fields come
/// over unchanged.
pub open spec fn derived_entry(p: (Seq<Seq<char>>, MapEntryView)) -> EntryView {
    EntryView {
        class_name: p.1.class_name,
        name: p.0[p.0.len() - 1],
        parent: if p.0.len() >= 2 {
            Some(p.0[p.0.len() - 2])
        } else {
            None
        },
        synonyms: p.1.synonyms,
        title: p.1.title,
    }
}

/// The flat entries that a sequence of path-keyed pairs denotes.
pub open spec fn derived_entries(m: Seq<(Seq<Seq<char>>, MapEntryView)>) -> Seq<EntryView> {
    m.map_values(|p: (Seq<Seq<char>>, MapEntryView)| derived_entry(p))
}

/// The path-keyed shape: taxonomy entries keyed by their full path.
#[derive(Debug)]
pub struct TaxonomyMap {
    /// The pairs; no two share a path.
    pub entries: Vec<(Path, MapEntry)>,
}

impl View for TaxonomyMap {
    type V = Seq<(Seq<Seq<char>>, MapEntryView)>;

    open spec fn view(&self) -> Seq<(Seq<Seq<char>>, MapEntryView)> {
        pair_views(self.entries@)
    }
}

impl TaxonomyMap {
    /// A well-formed map gives each path to at most one entry.
    pub open spec fn wf(&self) -> bool {
        unique_paths(self@)
    }

    /// How many entries the map has.
    pub fn len(&self) -> (r: usize)
        ensures
            r == self@.len(),
    {
        self.entries.len()
    }

    /// The pairs, keyed by their paths.
    pub fn entries(&self) -> (r: &Vec<(Path, MapEntry)>)
        ensures
            pair_views(r@) == self@,
    {
        &self.entries
    }

    /// Builds a map by inserting the pairs one by one under their path keys;
    /// of pairs that share a path the last one wins, as in a keyed store.
    pub fn from_pairs(pairs: Vec<(Path, MapEntry)>) -> (r: TaxonomyMap)
        ensures
            r.wf(),
            pairs_folded(pair_views(pairs@), r@),
    {
        let ghost input = pair_views(pairs@);
        let mut out: Vec<(Path, MapEntry)> = Vec::new();
        let n = pairs.len();
        let mut i: usize = 0;
        proof {
            assert(input.take(0) =~~= Seq::<(Seq<Seq<char>>, MapEntryView)>::empty());
            assert(pair_views(out@) =~~= Seq::<(Seq<Seq<char>>, MapEntryView)>::empty());
            assert forall|key: Seq<Seq<char>>| #[trigger] has_path(pair_views(out@), key) <==> has_path(
                input.take(0),
                key,
            ) by {}
        }
        while i < n
            invariant
                i <= n,
                n == pairs@.len(),
                input == pair_views(pairs@),
                pairs_folded(input.take(i as int), pair_views(out@)),
            decreases n - i,
        {
            let ghost out0 = pair_views(out@);
            let pair = (pairs[i].0.clone(), pairs[i].1.clone());
            proof {
                assert((pair.0@, pair.1@) == input[i as int]);
            }
            let m = out.len();
            let mut k: usize = 0;
            let mut found = false;
            while k < m && !found
                invariant
                    k <= m,
                    m == out@.len(),
                    pair_views(out@) == out0,
                    pair.0@ == input[i as int].0,
                    pair.1@ == input[i as int].1,
                    !found ==> forall|j: int| 0 <= j < k ==> out0[j].0 != pair.0@,
                    found ==> k < m && out0[k as int].0 == pair.0@,
                decreases m - k + (if found { 0 as int } else { 1 as int }),
            {
                if out[k].0.same_as(&pair.0) {
                    found = true;
                } else {
                    k += 1;
                }
            }
            if found {
                out[k] = pair;
                proof {
                    assert(has_path(out0, input[i as int].0));
                    assert(index_of_path(out0, input[i as int].0) == k as int) by {
                        let idx = index_of_path(out0, input[i as int].0);
                        assert(out0[idx].0 == input[i as int].0);
                    }
                    assert(pair_views(out@) =~~= out0.update(k as int, input[i as int]));
                }
            } else {
                out.push(pair);
                proof {
                    assert(!has_path(out0, input[i as int].0));
                    assert(pair_views(out@) =~~= out0.push(input[i as int]));
                }
            }
            proof {
                lemma_pairs_insert(input.take(i as int), out0, pair_views(out@), input[i as int]);
                assert(input.take(i as int).push(input[i as int]) =~~= input.take(i + 1));
            }
            i += 1;
        }
        proof {
            assert(input.take(n as int) =~~= input);
        }
        TaxonomyMap { entries: out }
    }
}

impl TaxonomyMap {
    /// Decomposes every path back into a flat entry: the path's last segment
    /// becomes the entry's own name, its second-to-last segment the parent
    /// pointer, and the carried fields come over unchanged. The entries are
    /// keyed by the derived names, a later one replacing an earlier one of
    /// the same name; a path with no final segment fails the whole
    /// conversion.
    pub fn into_collection(self) -> (r: Result<Collection, Error>)
        ensures
            r matches Ok(c) ==> (forall|i: int|
                0 <= i < self@.len() ==> (#[trigger] self@[i]).0.len() > 0) && c.wf() && folded(
                derived_entries(self@),
                c@,
            ),
            (forall|i: int| 0 <= i < self@.len() ==> (#[trigger] self@[i]).0.len() > 0) ==> r
                is Ok,
            r matches Err(e) ==> e is PathWithoutName && (exists|i: int|
                0 <= i < self@.len() && (#[trigger] self@[i]).0.len() == 0),
    {
        let ghost m = self@;
        let n = self.entries.len();
        let mut es: Vec<CollectionEntry> = Vec::new();
        let mut i: usize = 0;
        while i < n
            invariant
                i <= n,
                n == m.len(),
                m == self@,
                es@.len() == i,
                forall|j: int| 0 <= j < i ==> (#[trigger] m[j]).0.len() > 0,
                forall|j: int| 0 <= j < i ==> es@[j]@ == derived_entries(m)[j],
            decreases n - i,
        {
            let pe = &self.entries[i];
            let name = match pe.0.name() {
                Some(nm) => nm,
                None => {
                    proof {
                        assert(m[i as int].0.len() == 0);
                    }
                    return Err(Error::PathWithoutName);
                },
            };
            let parent = pe.0.parent();
            let e = CollectionEntry {
                class_name: pe.1.class_name.clone(),
                name,
                parent,
                synonyms: crate::entry::clone_strings(&pe.1.synonyms),
                title: pe.1.title.clone(),
            };
            proof {
                assert(e@ =~~= derived_entry(m[i as int]));
                assert(derived_entries(m)[i as int] == derived_entry(m[i as int]));
            }
            es.push(e);
            i += 1;
        }
        let c = Collection::from_entries(es);
        proof {
            assert(entry_views(es@) =~~= derived_entries(m));
        }
        Ok(c)
    }
}

/// The round trip law: converting a collection to its path-keyed map and
/// back reproduces the collection exactly — names, parent pointers, classes,
/// synonyms and titles all survive — provided the collection's names are
/// unique and no entry's parent pointer names the entry itself (such a
/// pointer is read as no parent on the way out). `map_of` is what `to_map`
/// establishes between the collection and the map, and `folded` is what
/// `into_collection` establishes between the map's derived entries and the
/// rebuilt collection.
pub proof fn lemma_round_trip(
    s: Seq<EntryView>,
    m: Seq<(Seq<Seq<char>>, MapEntryView)>,
    s2: Seq<EntryView>,
)
    requires
        unique_names(s),
        forall|i: int| 0 <= i < s.len() ==> (#[trigger] s[i]).parent != Some(s[i].name),
        map_of(s, m),
        folded(derived_entries(m), s2),
    ensures
        s2 == s,
{
    let d = derived_entries(m);
    assert forall|i: int| 0 <= i < s.len() implies d[i] == #[trigger] s[i] by {
        let c = m[i].0;
        assert(is_link(s, s[i], c));
        assert(c[c.len() - 1] == s[i].name);
        assert(d[i] == derived_entry(m[i]));
        match s[i].parent {
            Option::None => {
                if c.len() >= 2 {
                    assert(chain_entry(s, s[i], c, c.len() - 1) == s[i]);
                    assert(effective_parent(s[i]) == Some(c[c.len() - 2]));
                }
                assert(c.len() == 1);
            },
            Option::Some(p) => {
                assert(p != s[i].name);
                assert(effective_parent(s[i]) == Some(p));
                if c.len() == 1 {
                    assert(chain_entry(s, s[i], c, 0) == s[i]);
                    assert(effective_parent(chain_entry(s, s[i], c, 0)) is None);
                }
                assert(c.len() >= 2);
                assert(chain_entry(s, s[i], c, c.len() - 1) == s[i]);
                assert(effective_parent(s[i]) == Some(c[c.len() - 2]));
                assert(c[c.len() - 2] == p);
            },
        }
        assert(m[i].1 == map_entry_of(s[i]));
        assert(d[i] =~~= s[i]);
    }
    assert(unique_names(d)) by {
        assert forall|a: int, b: int|
            0 <= a < d.len() && 0 <= b < d.len() && a != b implies d[a].name != d[b].name by {
            assert(d[a] == s[a]);
            assert(d[b] == s[b]);
        }
    }
    assert(s2.len() == s.len());
    assert forall|i: int| 0 <= i < s.len() implies s2[i] == #[trigger] s[i] by {
        assert(s2[i] == d[i]);
    }
    assert(s2 =~~= s);
}

} // verus!
