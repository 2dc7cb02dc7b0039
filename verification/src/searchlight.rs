pub mod carve_log;
pub mod carving;
pub mod config;

use std::collections::VecDeque;

use vstd::prelude::*;

use crate::error::Error;

use self::config::SearchlightConfig;

verus! {

/// Default size of the blocks in which image data is loaded and searched.
pub const DEFAULT_BLOCK_SIZE: usize = 1024 * 1024;

/// A carving operation: carve an image with a configuration (an unknown cluster size is
/// estimated; a cluster size of 1 means files are not cluster-aligned), or carve the files a
/// carve log lists.
pub enum CarveOperationInfo {
    Image { path: String, config: SearchlightConfig, cluster_size: Option<u64>, skip_carving: bool },
    FromLog { path: String },
}

impl CarveOperationInfo {
    /// The path of the image or log file.
    pub open spec fn spec_path(&self) -> Seq<char> {
        match self {
            CarveOperationInfo::Image { path, .. } => path@,
            CarveOperationInfo::FromLog { path } => path@,
        }
    }

    /// The path of the image or log file.
    pub fn path(&self) -> (p: String)
        ensures
            p@ == self.spec_path(),
    {
        match self {
            CarveOperationInfo::Image { path, .. } => path.clone(),
            CarveOperationInfo::FromLog { path } => path.clone(),
        }
    }
}

/// The queue of carving operations to process, in order.
pub struct Searchlight {
    queue: VecDeque<CarveOperationInfo>,
}

impl Searchlight {
    /// The operations waiting, front first.
    pub closed spec fn queue(&self) -> Seq<CarveOperationInfo> {
        self.queue@
    }

    /// An empty queue.
    pub fn new() -> (s: Self)
        ensures
            s.queue() == Seq::<CarveOperationInfo>::empty(),
    {
        Searchlight { queue: VecDeque::new() }
    }

    /// Adds an operation to the back of the queue and returns the queue.
    pub fn with_operation(self, info: CarveOperationInfo) -> (s: Self)
        ensures
            s.queue() == self.queue().push(info),
    {
        let mut s = self;
        s.add_operation(info);
        s
    }

    /// Adds an operation to the back of the queue.
    pub fn add_operation(&mut self, info: CarveOperationInfo)
        ensures
            final(self).queue() == old(self).queue().push(info),
    {
        self.queue.push_back(info);
    }

    /// Processes the operation at the front of the queue with `process` (which carves an image
    /// or the files of a log into `output_dir`): returns the operation and `Ok(true)` if it
    /// succeeded, or its error; `(None, Ok(false))` if the queue is empty.
    pub fn process_file<F: FnOnce(&str, &CarveOperationInfo) -> Result<(), Error>>(
        &mut self,
        output_dir: &str,
        process: F,
    ) -> (r: (Option<CarveOperationInfo>, Result<bool, Error>))
        requires
            old(self).queue().len() > 0 ==> call_requires(
                process,
                (output_dir, &old(self).queue()[0]),
            ),
        ensures
            old(self).queue().len() == 0 ==> r == (None::<CarveOperationInfo>, Ok::<bool, Error>(false))
                && final(self).queue() == old(self).queue(),
            old(self).queue().len() > 0 ==> {
                &&& final(self).queue() == old(self).queue().drop_first()
                &&& r.0 == Some(old(self).queue()[0])
                &&& exists|res: Result<(), Error>|
                    call_ensures(process, (output_dir, &old(self).queue()[0]), res) && r.1 == match res {
                        Ok(_) => Ok::<bool, Error>(true),
                        Err(e) => Err(e),
                    }
            },
    {
        match self.queue.pop_front() {
            Some(info) => {
                let res = process(output_dir, &info);
                let result = match res {
                    Ok(_) => Ok(true),
                    Err(e) => Err(e),
                };
                (Some(info), result)
            },
            None => (None, Ok(false)),
        }
    }
}

/// Operations come out of the queue in the order they went in: adding an operation at the back
/// changes neither which operation is processed next nor the order of the ones after it, and an
/// operation added to an empty queue is the next one processed.
pub proof fn lemma_queue_fifo(q: Seq<CarveOperationInfo>, a: CarveOperationInfo)
    ensures
        q.len() > 0 ==> q.push(a)[0] == q[0] && q.push(a).drop_first() == q.drop_first().push(a),
        q.len() == 0 ==> q.push(a)[0] == a && q.push(a).drop_first() == Seq::<CarveOperationInfo>::empty(),
{
    if q.len() > 0 {
        assert(q.push(a).drop_first() =~= q.drop_first().push(a));
    } else {
        assert(q.push(a).drop_first() =~= Seq::<CarveOperationInfo>::empty());
    }
}

} // verus!
