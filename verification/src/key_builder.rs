//! Paths into a document.

use vstd::prelude::*;

verus! {

/// One step of a path into a document.
#[derive(Debug)]
pub enum Segment {
    /// Into the member of an object with this key.
    ObjectKey(String),
    /// Into any element of an array.
    Array,
    /// Into the element of an array with this index.
    ArrayIndex(u64),
}

/// The mathematical form of a `Segment`.
pub enum SegmentView {
    ObjectKey(Seq<char>),
    Array,
    ArrayIndex(u64),
}

/// The mathematical form of a path.
pub type Path = Seq<SegmentView>;

impl DeepView for Segment {
    type V = SegmentView;

    open spec fn deep_view(&self) -> SegmentView {
        match self {
            Segment::ObjectKey(key) => SegmentView::ObjectKey(key@),
            Segment::Array => SegmentView::Array,
            Segment::ArrayIndex(index) => SegmentView::ArrayIndex(*index),
        }
    }
}

impl Clone for Segment {
    fn clone(&self) -> (r: Segment)
        ensures
            r.deep_view() == self.deep_view(),
    {
        match self {
            Segment::ObjectKey(key) => Segment::ObjectKey(key.clone()),
            Segment::Array => Segment::Array,
            Segment::ArrayIndex(index) => Segment::ArrayIndex(*index),
        }
    }
}

/// A path into a document, grown and cut at its end.
#[derive(Debug)]
pub struct KeyBuilder {
    /// The steps from the root of the document.
    pub segments: Vec<Segment>,
}

impl DeepView for KeyBuilder {
    type V = Path;

    open spec fn deep_view(&self) -> Path {
        self.segments.deep_view()
    }
}

impl Clone for KeyBuilder {
    fn clone(&self) -> (r: KeyBuilder)
        ensures
            r.deep_view() == self.deep_view(),
    {
        let mut segments: Vec<Segment> = Vec::new();
        let mut i: usize = 0;
        while i < self.segments.len()
            invariant
                i <= self.segments@.len(),
                segments.deep_view() =~= self.segments.deep_view().take(i as int),
            decreases self.segments@.len() - i,
        {
            let segment = self.segments[i].clone();
            let ghost before = segments.deep_view();
            segments.push(segment);
            assert(segments.deep_view() =~= before.push(segment.deep_view()));
            assert(self.segments.deep_view()[i as int] == self.segments@[i as int].deep_view());
            i += 1;
        }
        assert(self.segments.deep_view().take(i as int) =~= self.segments.deep_view());
        KeyBuilder { segments }
    }
}

impl KeyBuilder {
    /// Makes the empty path, which leads to the whole document.
    pub fn new() -> (r: KeyBuilder)
        ensures
            r.deep_view() == Path::empty(),
    {
        let r = KeyBuilder { segments: Vec::new() };
        assert(r.deep_view() =~= Path::empty());
        r
    }

    /// Steps into the member of an object with the key `key`.
    pub fn push_object_key(&mut self, key: &str)
        ensures
            final(self).deep_view() == old(self).deep_view().push(SegmentView::ObjectKey(key@)),
    {
        self.segments.push(Segment::ObjectKey(key.to_owned()));
        assert(self.deep_view() =~= old(self).deep_view().push(SegmentView::ObjectKey(key@)));
    }

    /// Steps into any element of an array.
    pub fn push_array(&mut self)
        ensures
            final(self).deep_view() == old(self).deep_view().push(SegmentView::Array),
    {
        self.segments.push(Segment::Array);
        assert(self.deep_view() =~= old(self).deep_view().push(SegmentView::Array));
    }

    /// Steps into the element of an array with the index `index`.
    pub fn push_array_index(&mut self, index: u64)
        ensures
            final(self).deep_view() == old(self).deep_view().push(SegmentView::ArrayIndex(index)),
    {
        self.segments.push(Segment::ArrayIndex(index));
        assert(self.deep_view() =~= old(self).deep_view().push(SegmentView::ArrayIndex(index)));
    }

    /// Takes back the last step, one into a member of an object.
    pub fn pop_object_key(&mut self)
        requires
            old(self).deep_view().len() > 0,
            old(self).deep_view().last() is ObjectKey,
        ensures
            final(self).deep_view() == old(self).deep_view().drop_last(),
    {
        let _ = self.segments.pop();
        assert(self.deep_view() =~= old(self).deep_view().drop_last());
    }

    /// Takes back the last step, one into any element of an array.
    pub fn pop_array(&mut self)
        requires
            old(self).deep_view().len() > 0,
            old(self).deep_view().last() is Array,
        ensures
            final(self).deep_view() == old(self).deep_view().drop_last(),
    {
        let _ = self.segments.pop();
        assert(self.deep_view() =~= old(self).deep_view().drop_last());
    }
}

} // verus!
