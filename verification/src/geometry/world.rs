//! A flat scene container: the objects and, kept alongside, one bounding box
//! per object, always in step.

use vstd::prelude::*;

verus! {

pub struct World<O, B> {
    bounding_boxes: Vec<B>,
    objects: Vec<O>,
}

impl<O, B> World<O, B> {
    pub closed spec fn spec_objects(&self) -> Seq<O> {
        self.objects@
    }

    pub closed spec fn spec_boxes(&self) -> Seq<B> {
        self.bounding_boxes@
    }

    /// One bounding box per object.
    pub open spec fn wf(&self) -> bool {
        self.spec_boxes().len() == self.spec_objects().len()
    }

    pub fn new() -> (w: World<O, B>)
        ensures
            w.wf(),
            w.spec_objects().len() == 0,
            w.spec_boxes().len() == 0,
    {
        World { bounding_boxes: Vec::new(), objects: Vec::new() }
    }

    /// Appends an object together with its bounding box.
    pub fn push(&mut self, object: O, bounding_box: B)
        requires
            old(self).wf(),
        ensures
            final(self).wf(),
            final(self).spec_objects() == old(self).spec_objects().push(object),
            final(self).spec_boxes() == old(self).spec_boxes().push(bounding_box),
    {
        self.bounding_boxes.push(bounding_box);
        self.objects.push(object);
    }

    pub fn len(&self) -> (n: usize)
        ensures
            n == self.spec_objects().len(),
    {
        self.objects.len()
    }

    pub fn object(&self, index: usize) -> (o: &O)
        requires
            index < self.spec_objects().len(),
        ensures
            *o == self.spec_objects()[index as int],
    {
        &self.objects[index]
    }

    pub fn bounding_box(&self, index: usize) -> (b: &B)
        requires
            self.wf(),
            index < self.spec_objects().len(),
        ensures
            *b == self.spec_boxes()[index as int],
    {
        &self.bounding_boxes[index]
    }
}

} // verus!
