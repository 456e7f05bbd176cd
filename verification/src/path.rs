//! Locations within a document, e.g. `.scores.alice[2]`.
use vstd::prelude::*;
use crate::text::{decimal, decimal_string, push_char, push_str};

verus! {

/// One step in a `Path`: a map field name or a list index.
#[derive(Debug, PartialEq, Eq, Hash)]
pub enum PathSegment {
    Field(String),
    Index(usize),
}

impl Clone for PathSegment {
    fn clone(&self) -> (r: Self)
        ensures
            r == *self,
    {
        match self {
            PathSegment::Field(name) => PathSegment::Field(name.clone()),
            PathSegment::Index(i) => PathSegment::Index(*i),
        }
    }
}

/// The mathematical value of a path segment.
pub enum SegView {
    Field(Seq<char>),
    Index(usize),
}

impl View for PathSegment {
    type V = SegView;

    open spec fn view(&self) -> SegView {
        match self {
            PathSegment::Field(name) => SegView::Field(name@),
            PathSegment::Index(i) => SegView::Index(*i),
        }
    }
}

/// The text of one segment: `.name` or `[i]`.
pub open spec fn segment_text(s: SegView) -> Seq<char> {
    match s {
        SegView::Field(name) => seq!['.'] + name,
        SegView::Index(i) => seq!['['] + decimal(i as nat) + seq![']'],
    }
}

/// The text of a sequence of segments, without the root's special case.
pub open spec fn segments_text(segs: Seq<SegView>) -> Seq<char>
    decreases segs.len(),
{
    if segs.len() == 0 {
        Seq::empty()
    } else {
        segments_text(segs.drop_last()) + segment_text(segs.last())
    }
}

/// The text of a path: `.` for the root.
pub open spec fn path_text(segs: Seq<SegView>) -> Seq<char> {
    if segs.len() == 0 {
        seq!['.']
    } else {
        segments_text(segs)
    }
}

/// Addresses a location within a `Document`, e.g. `.scores.alice[2]`.
#[derive(Debug, PartialEq, Eq, Hash, Default)]
pub struct Path(Vec<PathSegment>);

impl Clone for Path {
    fn clone(&self) -> (r: Self)
        ensures
            r@ == self@,

    {
        let mut v: Vec<PathSegment> = Vec::new();
        let mut i: usize = 0;
        while i < self.0.len()
            invariant
                i <= self.0@.len(),
                v@ == self.0@.take(i as int),
            decreases self.0@.len() - i,
        {
            v.push(self.0[i].clone());
            proof {
                assert(self.0@.take(i as int + 1) =~= self.0@.take(i as int).push(self.0@[i as int]));
            }
            i = i + 1;
        }
        proof {
            assert(self.0@.take(self.0@.len() as int) =~= self.0@);
        }
        Path(v)
    }
}

impl View for Path {
    type V = Seq<SegView>;

    closed spec fn view(&self) -> Seq<SegView> {
        self.0@.map_values(|s: PathSegment| s@)
    }
}

impl Path {
    pub fn root() -> (r: Path)
        ensures
            r@ == Seq::<SegView>::empty(),
    {
        let r = Path(Vec::new());
        proof {
            assert(r@ =~= Seq::<SegView>::empty());
        }
        r
    }

    /// A new path extended with a field segment.
    pub fn field(&self, name: &str) -> (r: Path)
        ensures
            r@ == self@.push(SegView::Field(name@)),
    {
        let mut p = self.clone();
        p.0.push(PathSegment::Field(name.to_owned()));
        proof {
            assert(p@ =~= self@.push(SegView::Field(name@)));
        }
        p
    }

    /// A new path extended with an index segment.
    pub fn index(&self, i: usize) -> (r: Path)
        ensures
            r@ == self@.push(SegView::Index(i)),
    {
        let mut p = self.clone();
        p.0.push(PathSegment::Index(i));
        proof {
            assert(p@ =~= self@.push(SegView::Index(i)));
        }
        p
    }

    pub fn segments(&self) -> (r: &[PathSegment])
        ensures
            r@.map_values(|s: PathSegment| s@) == self@,
    {
        self.0.as_slice()
    }

    /// The text of the path: `.` for the root, then `.name` per field and
    /// `[i]` per index.
    pub fn to_string(&self) -> (r: String)
        ensures
            r@ == path_text(self@),
    {
        let mut s = String::new();
        proof {
            assert(self@.len() == self.0@.len());
        }
        if self.0.len() == 0 {
            push_char(&mut s, '.');
            proof {
                assert(s@ =~= seq!['.']);
            }
            return s;
        }
        let mut i: usize = 0;
        while i < self.0.len()
            invariant
                i <= self.0@.len(),
                s@ == segments_text(self@.take(i as int)),
                self@ == self.0@.map_values(|s: PathSegment| s@),
            decreases self.0@.len() - i,
        {
            match &self.0[i] {
                PathSegment::Field(name) => {
                    push_char(&mut s, '.');
                    push_str(&mut s, name.as_str());
                },
                PathSegment::Index(k) => {
                    push_char(&mut s, '[');
                    let d = decimal_string(*k as u64);
                    push_str(&mut s, d.as_str());
                    push_char(&mut s, ']');
                },
            }
            proof {
                let t = self@.take(i as int + 1);
                assert(t.drop_last() =~= self@.take(i as int));
                assert(s@ =~= segments_text(t));
            }
            i = i + 1;
        }
        proof {
            assert(self@.take(self@.len() as int) =~= self@);
        }
        s
    }
}

} // verus!
