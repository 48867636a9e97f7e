use vstd::prelude::*;

verus! {

/// One labelled example: the class and each feature as an index into its attribute's domain.
#[derive(Debug)]
pub struct Record {
    pub class: usize,
    pub features: Vec<usize>,
}

impl Record {
    /// A field-for-field copy of the record.
    pub fn duplicate(&self) -> (r: Record)
        ensures
            r.class == self.class,
            r.features@ == self.features@,
    {
        let mut features: Vec<usize> = Vec::with_capacity(self.features.len());
        let mut i: usize = 0;
        while i < self.features.len()
            invariant
                i <= self.features@.len(),
                features@ == self.features@.take(i as int),
            decreases self.features@.len() - i,
        {
            features.push(self.features[i]);
            i = i + 1;
            assert(features@ =~= self.features@.take(i as int));
        }
        assert(features@ =~= self.features@);
        Record { class: self.class, features }
    }
}

} // verus!
