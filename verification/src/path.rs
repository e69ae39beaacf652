//! Relative paths as plain segment lists.
//!
//! The tree is frequently synthetic, so paths are modelled as sequences of
//! name segments rather than operating-system paths; the adapter layer
//! converts real filesystem paths into this form at the boundary.

use vstd::prelude::*;

verus! {

/// A relative directory path: an ordered list of name segments.
pub struct RelPath {
    segs: Vec<String>,
}

/// How the deep view of a segment vector relates to its elements.
proof fn lemma_deepview_index(v: Vec<String>)
    ensures
        v.deep_view().len() == v@.len(),
        forall|j: int| 0 <= j < v@.len() ==> v.deep_view()[j] == (#[trigger] v@[j])@,
{
}

impl View for RelPath {
    type V = Seq<Seq<char>>;

    closed spec fn view(&self) -> Seq<Seq<char>> {
        self.segs.deep_view()
    }
}

impl DeepView for RelPath {
    type V = Seq<Seq<char>>;

    open spec fn deep_view(&self) -> Seq<Seq<char>> {
        self.view()
    }
}

impl Clone for RelPath {
    fn clone(&self) -> (r: Self)
        ensures
            r@ == self@,
    {
        let mut segs: Vec<String> = Vec::new();
        let mut i: usize = 0;
        while i < self.segs.len()
            invariant
                i <= self.segs.len(),
                segs@.len() == i,
                forall|j: int| 0 <= j < i ==> (#[trigger] segs@[j])@ == self.segs@[j]@,
            decreases self.segs.len() - i,
        {
            segs.push(self.segs[i].clone());
            i = i + 1;
        }
        proof {
            lemma_deepview_index(segs);
            lemma_deepview_index(self.segs);
            assert(segs.deep_view() =~= self.segs.deep_view());
        }
        RelPath { segs }
    }
}

impl RelPath {
    /// The empty path.
    pub fn empty() -> (r: Self)
        ensures
            r@ =~= Seq::<Seq<char>>::empty(),
            r@.len() == 0,
    {
        RelPath { segs: Vec::new() }
    }

    /// Wrap a list of segments as a path.
    pub fn from_segs(segs: Vec<String>) -> (r: Self)
        ensures
            r@ == segs.deep_view(),
    {
        RelPath { segs }
    }

    /// Number of segments.
    pub fn len(&self) -> (r: usize)
        ensures
            r == self@.len(),
    {
        proof {
            lemma_deepview_index(self.segs);
        }
        self.segs.len()
    }

    /// Whether the path has no segments.
    pub fn is_empty(&self) -> (r: bool)
        ensures
            r == (self@.len() == 0),
    {
        proof {
            lemma_deepview_index(self.segs);
        }
        self.segs.len() == 0
    }

    /// The segment at position `i`.
    pub fn seg(&self, i: usize) -> (r: &String)
        requires
            i < self@.len(),
        ensures
            r@ == self@[i as int],
    {
        proof {
            lemma_deepview_index(self.segs);
        }
        &self.segs[i]
    }

    /// The last segment, when the path is not empty.
    pub fn last_seg(&self) -> (r: Option<&String>)
        ensures
            self@.len() == 0 ==> r is None,
            self@.len() > 0 ==> (r matches Some(s) && s@ == self@[self@.len() - 1]),
    {
        proof {
            lemma_deepview_index(self.segs);
        }
        if self.segs.len() == 0 {
            None
        } else {
            Some(&self.segs[self.segs.len() - 1])
        }
    }

    /// Add one segment at the end.
    pub fn push_seg(&mut self, s: String)
        ensures
            final(self)@ == old(self)@.push(s@),
    {
        self.segs.push(s);
        proof {
            lemma_deepview_index(self.segs);
            lemma_deepview_index(old(self).segs);
            assert(self.segs.deep_view() =~= old(self).segs.deep_view().push(s@));
        }
    }

    /// A copy of this path with one more segment at the end.
    pub fn join(&self, seg: &str) -> (r: Self)
        ensures
            r@ == self@.push(seg@),
    {
        let mut r = self.clone();
        r.push_seg(seg.to_owned());
        r
    }

    /// The path without its last segment; `None` for the empty path.
    pub fn parent(&self) -> (r: Option<RelPath>)
        ensures
            self@.len() == 0 ==> r is None,
            self@.len() > 0 ==> (r matches Some(p) && p@ == self@.take(self@.len() - 1)),
    {
        proof {
            lemma_deepview_index(self.segs);
        }
        if self.segs.len() == 0 {
            None
        } else {
            let mut p = self.clone();
            let _ = p.segs.pop();
            proof {
                lemma_deepview_index(p.segs);
                assert(p.segs.deep_view() =~= self@.take(self@.len() - 1));
            }
            Some(p)
        }
    }

    /// Whether two paths hold the same segments.
    pub fn eq_path(&self, other: &RelPath) -> (r: bool)
        ensures
            r == (self@ == other@),
    {
        proof {
            lemma_deepview_index(self.segs);
            lemma_deepview_index(other.segs);
        }
        if self.segs.len() != other.segs.len() {
            return false;
        }
        let mut i: usize = 0;
        while i < self.segs.len()
            invariant
                i <= self.segs.len(),
                self.segs@.len() == other.segs@.len(),
                forall|j: int| 0 <= j < i ==> (#[trigger] self.segs@[j])@ == other.segs@[j]@,
            decreases self.segs.len() - i,
        {
            if !self.segs[i].eq(&other.segs[i]) {
                proof {
                    lemma_deepview_index(self.segs);
                    lemma_deepview_index(other.segs);
                    assert(self@[i as int] != other@[i as int]);
                }
                return false;
            }
            i = i + 1;
        }
        proof {
            lemma_deepview_index(self.segs);
            lemma_deepview_index(other.segs);
            assert(self@ =~= other@);
        }
        true
    }

    /// The segments, for callers outside the verified core.
    pub fn segments(&self) -> (r: &Vec<String>)
        ensures
            r.deep_view() == self@,
    {
        &self.segs
    }
}

} // verus!
