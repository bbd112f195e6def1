//! Background jobs: what the shell remembers of each one it started.

use vstd::prelude::*;

verus! {

/// The state of a background job.
#[derive(Debug, PartialEq, Eq, Structural, Clone, Copy)]
pub enum JobStatus {
    Running,
}

/// A background job: its number in the shell, its process id, its command line.
pub struct Job {
    pub id: u32,
    pub pid: u32,
    pub command: String,
    pub status: JobStatus,
}

/// The table of jobs as the shell starts: empty.
pub fn jobs_table() -> (t: Vec<Job>)
    ensures
        t@.len() == 0,
{
    Vec::new()
}

/// The number the next background job gets: one more than the number of jobs
/// in the table.
pub open spec fn next_id(jobs: Seq<Job>) -> int {
    jobs.len() + 1int
}

/// Whether each job's number is its place in the table, counting from 1.
pub open spec fn numbered_in_order(jobs: Seq<Job>) -> bool {
    forall|i: int| 0 <= i < jobs.len() ==> (#[trigger] jobs[i]).id == i + 1
}

/// The number the next background job gets: one more than the number of jobs
/// in the table.
pub fn next_job_id(jobs: &Vec<Job>) -> (id: u32)
    requires
        jobs@.len() < u32::MAX,
    ensures
        id == next_id(jobs@),
{
    jobs.len() as u32 + 1
}


/// Jobs are numbered from 1 in the order they start: when each job is
/// recorded with the number `next_job_id` gave, the table stays numbered by
/// place, and the next call gives the number after the last job's.
pub proof fn law_job_ids_count_up(jobs: Seq<Job>, job: Job)
    requires
        numbered_in_order(jobs),
        job.id == next_id(jobs),
    ensures
        numbered_in_order(jobs.push(job)),
        next_id(jobs.push(job)) == job.id + 1,
{
    assert forall|i: int| 0 <= i < jobs.push(job).len() implies (#[trigger] jobs.push(job)[i]).id
        == i + 1 by {
        if i < jobs.len() {
            assert(jobs.push(job)[i] == jobs[i]);
        }
    }
}

/// The table as the shell starts is numbered in order, and its first job
/// gets the number 1.
pub proof fn law_first_job_is_one(jobs: Seq<Job>)
    requires
        jobs.len() == 0,
    ensures
        numbered_in_order(jobs),
        next_id(jobs) == 1,
{
}

} // verus!
