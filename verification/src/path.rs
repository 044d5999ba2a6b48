//! Paths: sequences of identifiers naming a taxonomy entry's full ancestor
//! chain root-first, written as one `/`-joined string.

use vstd::prelude::*;
use vstd::string::StrSliceExecFns;
use vstd::string::StringExecFns;
use crate::error::Error;
use crate::ident::Identifier;
use crate::ident::identifier_error_for;
use crate::ident::valid_identifier;

verus! {

/// The views of a vector of identifiers.
pub open spec fn seg_views(v: Seq<Identifier>) -> Seq<Seq<char>> {
    v.map_values(|id: Identifier| id@)
}

/// The segments joined into one string with the separator between them.
pub open spec fn joined(segs: Seq<Seq<char>>) -> Seq<char>
    decreases segs.len(),
{
    if segs.len() == 0 {
        Seq::empty()
    } else if segs.len() == 1 {
        segs[0]
    } else {
        joined(segs.drop_last()) + seq!['/'] + segs.last()
    }
}

/// The position of the first separator, or -1 if there is none.
pub open spec fn first_slash(s: Seq<char>) -> int
    decreases s.len(),
{
    if s.len() == 0 {
        -1
    } else if s[0] == '/' {
        0
    } else if first_slash(s.drop_first()) < 0 {
        -1
    } else {
        1 + first_slash(s.drop_first())
    }
}

/// The string cut at every separator. A string without a separator is one
/// segment; the separators themselves are dropped.
pub open spec fn split_slash(s: Seq<char>) -> Seq<Seq<char>>
    decreases s.len(),
{
    let f = first_slash(s);
    if !(0 <= f < s.len()) {
        seq![s]
    } else {
        seq![s.take(f)] + split_slash(s.skip(f + 1))
    }
}

/// If the characters before position `m` are no separators, and `m` is the
/// string's end or a separator, then `m` locates the first separator.
proof fn lemma_first_slash_at(t: Seq<char>, m: int)
    requires
        0 <= m <= t.len(),
        forall|j: int| 0 <= j < m ==> t[j] != '/',
        m == t.len() || t[m] == '/',
    ensures
        first_slash(t) == if m == t.len() {
            -1 as int
        } else {
            m
        },
    decreases m,
{
    if m == 0 {
    } else {
        assert(t[0] != '/');
        lemma_first_slash_at(t.drop_first(), m - 1);
    }
}

/// A path: the identifiers of an entry's ancestor chain, root first and the
/// entry's own name last.
#[derive(Debug)]
pub struct Path {
    /// The path's segments, root first.
    pub segments: Vec<Identifier>,
}

impl View for Path {
    type V = Seq<Seq<char>>;

    open spec fn view(&self) -> Seq<Seq<char>> {
        seg_views(self.segments@)
    }
}

impl Clone for Path {
    fn clone(&self) -> (r: Self)
        ensures
            r@ == self@,
    {
        let mut segs: Vec<Identifier> = Vec::new();
        let n = self.segments.len();
        let mut i: usize = 0;
        while i < n
            invariant
                i <= n,
                n == self.segments@.len(),
                segs@.len() == i,
                forall|j: int| 0 <= j < i ==> segs@[j]@ == self.segments@[j]@,
            decreases n - i,
        {
            segs.push(self.segments[i].clone());
            i += 1;
        }
        let r = Path { segments: segs };
        proof {
            assert(r@ =~~= self@);
        }
        r
    }
}

/// The error that path parsing reports: the identifier failure of the first
/// invalid segment of the split string.
pub open spec fn path_error_for(e: Error, s: Seq<char>) -> bool {
    exists|k: int|
        0 <= k < split_slash(s).len() && !valid_identifier(split_slash(s)[k]) && (forall|j: int|
            0 <= j < k ==> valid_identifier(#[trigger] split_slash(s)[j]))
            && identifier_error_for(e, split_slash(s)[k])
}

impl Path {
    /// Builds a path from its segments, root first.
    pub fn from_segments(segments: Vec<Identifier>) -> (r: Path)
        ensures
            r@ == seg_views(segments@),
    {
        Path { segments }
    }

    /// How many segments the path has.
    pub fn len(&self) -> (r: usize)
        ensures
            r == self@.len(),
    {
        self.segments.len()
    }

    /// The final segment: the named entry's own identifier. `None` only for
    /// an empty path, which no parse or conversion produces.
    pub fn name(&self) -> (r: Option<Identifier>)
        ensures
            r matches Some(id) ==> self@.len() > 0 && id@ == self@[self@.len() - 1],
            r is None <==> self@.len() == 0,
    {
        let k = self.segments.len();
        if k == 0 {
            None
        } else {
            Some(self.segments[k - 1].clone())
        }
    }

    /// The second-to-last segment: the named entry's parent identifier, or
    /// `None` if the path has fewer than two segments (a root entry).
    pub fn parent(&self) -> (r: Option<Identifier>)
        ensures
            r matches Some(id) ==> self@.len() >= 2 && id@ == self@[self@.len() - 2],
            r is None <==> self@.len() < 2,
    {
        let k = self.segments.len();
        if k < 2 {
            None
        } else {
            Some(self.segments[k - 2].clone())
        }
    }

    /// Writes the path as one string, the segments joined by `/`.
    pub fn encode(&self) -> (r: String)
        ensures
            r@ == joined(self@),
    {
        let mut out = String::new();
        let n = self.segments.len();
        let mut i: usize = 0;
        while i < n
            invariant
                i <= n,
                n == self.segments@.len(),
                out@ == joined(self@.take(i as int)),
            decreases n - i,
        {
            proof {
                reveal_strlit("/");
                assert(self@.take(i + 1).drop_last() =~~= self@.take(i as int));
                assert(self@.take(i + 1).last() == self@[i as int]);
            }
            if i > 0 {
                out.append("/");
            }
            out.append(self.segments[i].as_str());
            proof {
                if i == 0 {
                    assert(out@ =~= joined(self@.take(1)));
                } else {
                    assert(out@ =~= joined(self@.take(i + 1)));
                }
            }
            i += 1;
        }
        proof {
            assert(self@.take(n as int) =~~= self@);
        }
        out
    }

    /// Parses a `/`-separated string: every separated piece must validate as
    /// an identifier, and the first failure is reported.
    pub fn parse(s: &str) -> (r: Result<Path, Error>)
        ensures
            r matches Ok(p) ==> p@ == split_slash(s@) && (forall|k: int|
                0 <= k < split_slash(s@).len() ==> valid_identifier(
                    #[trigger] split_slash(s@)[k],
                )),
            (forall|k: int|
                0 <= k < split_slash(s@).len() ==> valid_identifier(
                    #[trigger] split_slash(s@)[k],
                )) ==> r is Ok,
            r matches Err(e) ==> path_error_for(e, s@),
    {
        let n = s.unicode_len();
        let mut segs: Vec<Identifier> = Vec::new();
        let mut start: usize = 0;
        let mut i: usize = 0;
        proof {
            assert(s@.skip(0) =~= s@);
            assert(seg_views(segs@) =~= Seq::<Seq<char>>::empty());
            assert(split_slash(s@) =~= seg_views(segs@) + split_slash(s@.skip(0)));
        }
        while i < n
            invariant
                start <= i <= n,
                n == s@.len(),
                forall|j: int| start <= j < i ==> s@[j] != '/',
                split_slash(s@) == seg_views(segs@) + split_slash(s@.skip(start as int)),
                forall|k: int| 0 <= k < segs@.len() ==> valid_identifier(#[trigger] segs@[k]@),
            decreases n - i,
        {
            if s.get_char(i) == '/' {
                let piece = s.substring_char(start, i);
                proof {
                    let t = s@.skip(start as int);
                    lemma_first_slash_at(t, i - start);
                    assert(t.take(i - start) =~= s@.subrange(start as int, i as int));
                    assert(t.skip(i - start + 1) =~= s@.skip(i + 1));
                    assert(split_slash(t) == seq![piece@] + split_slash(s@.skip(i + 1)));
                }
                match Identifier::parse(piece) {
                    Ok(id) => {
                        segs.push(id);
                        proof {
                            assert(seg_views(segs@) =~~= seg_views(segs@.drop_last()).push(
                                piece@,
                            ));
                            assert(split_slash(s@) =~~= seg_views(segs@) + split_slash(
                                s@.skip(i + 1),
                            ));
                        }
                        start = i + 1;
                    },
                    Err(e) => {
                        proof {
                            let k = segs@.len() as int;
                            assert(split_slash(s@)[k] == piece@);
                            assert(forall|j: int|
                                0 <= j < k ==> valid_identifier(#[trigger] split_slash(s@)[j]));
                        }
                        return Err(e);
                    },
                }
            }
            i += 1;
        }
        let piece = s.substring_char(start, n);
        proof {
            let t = s@.skip(start as int);
            lemma_first_slash_at(t, n - start);
            assert(t =~= s@.subrange(start as int, n as int));
            assert(split_slash(t) == seq![piece@]);
        }
        match Identifier::parse(piece) {
            Ok(id) => {
                segs.push(id);
                proof {
                    assert(seg_views(segs@) =~~= seg_views(segs@.drop_last()).push(piece@));
                    assert(split_slash(s@) =~~= seg_views(segs@));
                }
                Ok(Path { segments: segs })
            },
            Err(e) => {
                proof {
                    let k = segs@.len() as int;
                    assert(split_slash(s@)[k] == piece@);
                    assert(forall|j: int|
                        0 <= j < k ==> valid_identifier(#[trigger] split_slash(s@)[j]));
                }
                Err(e)
            },
        }
    }

    /// Compares two paths segment by segment.
    pub fn same_as(&self, other: &Path) -> (r: bool)
        ensures
            r == (self@ == other@),
    {
        let n = self.segments.len();
        proof {
            assert(self@.len() == self.segments@.len());
            assert(other@.len() == other.segments@.len());
        }
        if n != other.segments.len() {
            return false;
        }
        let mut i: usize = 0;
        while i < n
            invariant
                i <= n,
                n == self.segments@.len(),
                n == other.segments@.len(),
                forall|j: int| 0 <= j < i ==> self.segments@[j]@ == other.segments@[j]@,
            decreases n - i,
        {
            if !(self.segments[i] == other.segments[i]) {
                proof {
                    assert(self@[i as int] == self.segments@[i as int]@);
                    assert(other@[i as int] == other.segments@[i as int]@);
                }
                return false;
            }
            i += 1;
        }
        proof {
            assert(self@ =~~= other@);
        }
        true
    }
}

} // verus!
