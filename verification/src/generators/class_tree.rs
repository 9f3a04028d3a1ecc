//! The classes nested in a class, in the order of a depth-first walk.
use vstd::prelude::*;
use crate::generators::class_model::{class_well_formed, descendants, nested};
use crate::generators::dart_generator::DartClassGenerator;

verus! {

impl DartClassGenerator {
    /// The classes nested in class `index` at any depth, by index, in the
    /// order of a depth-first walk.
    pub fn get_classes_recursively(&self, index: usize) -> (result: Vec<usize>)
        requires
            self.wf(),
            index < self.table().len(),
        ensures
            result@ == descendants(self.table(), index as int),
        decreases self.table().len() - index,
    {
        let ghost t = self.table();
        let classes = self.classes();
        let children = &classes[index].classes;
        assert(classes[index as int]@ == t[index as int]);
        assert(class_well_formed(t, index as int));
        let mut result: Vec<usize> = Vec::new();
        let mut k: usize = 0;
        while k < children.len()
            invariant
                k <= children.len(),
                self.wf(),
                t == self.table(),
                index < t.len(),
                children@ == t[index as int].children,
                class_well_formed(t, index as int),
                result@ == nested(t, index as int, k as nat),
            decreases children.len() - k,
        {
            let child = children[k];
            assert(index < t[index as int].children[k as int] < t.len());
            result.push(child);
            let mut inner = self.get_classes_recursively(child);
            result.append(&mut inner);
            k += 1;
        }
        result
    }
}

} // verus!
