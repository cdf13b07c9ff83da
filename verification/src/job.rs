use vstd::prelude::*;

verus! {

/// One step of a job: the machine that it needs and the time that it takes.
#[derive(Debug)]
pub struct Operation {
    pub machine: usize,
    pub time: usize,
    pub part_number: usize,
    pub job_number: usize,
}

/// A job: its operations in the order in which they have to be done.
#[derive(Debug)]
pub struct Job {
    pub operations: Vec<Operation>,
    pub number: usize,
}

impl Job {
    /// A job without operations.
    pub fn new(number: usize) -> (job: Self)
        ensures
            job.number == number,
            job.operations@.len() == 0,
    {
        Self { operations: Vec::new(), number }
    }

    /// Adds an operation behind those that the job has.
    pub fn add_operation(&mut self, operation: Operation)
        ensures
            final(self).number == old(self).number,
            final(self).operations@ == old(self).operations@.push(operation),
    {
        self.operations.push(operation);
    }
}

} // verus!
