//! The scene: an insertion-ordered list of primitives, filled once and then
//! only read while a frame renders.
use vstd::prelude::*;

verus! {

#[derive(Clone)]
pub struct HittableList<T> {
    objects: Vec<T>,
}

impl<T> View for HittableList<T> {
    type V = Seq<T>;

    closed spec fn view(&self) -> Seq<T> {
        self.objects@
    }
}

impl<T> HittableList<T> {
    pub fn new() -> (r: HittableList<T>)
        ensures
            r@ == Seq::<T>::empty(),
    {
        HittableList { objects: Vec::new() }
    }

    pub fn clear(&mut self)
        ensures
            final(self)@ == Seq::<T>::empty(),
    {
        self.objects.clear();
    }

    /// Appends a primitive after those already in the scene.
    pub fn add(&mut self, object: T)
        ensures
            final(self)@ == old(self)@.push(object),
    {
        self.objects.push(object);
    }

    pub fn len(&self) -> (r: usize)
        ensures
            r == self@.len(),
    {
        self.objects.len()
    }

    /// The primitives, in the order they were added.
    pub fn objects(&self) -> (r: &Vec<T>)
        ensures
            r@ == self@,
    {
        &self.objects
    }
}

} // verus!
