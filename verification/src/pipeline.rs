//! The map-reduce pipeline as a step machine. The surrounding
//! application owns the network: it repeatedly asks for the next
//! prompt, sends it to the generation service, and hands the response
//! back. The decisions — which prompt comes next, where a response
//! belongs, when the run is finished — are all made and verified here.

use vstd::prelude::*;
use vstd::string::*;
use crate::chunker::{split_spec, split_text};
use crate::words::join_sep;
use crate::prompts::{
    map_prompt_of,
    combine_prompt_of,
    build_map_prompt,
    build_combine_prompt,
    combine_partials,
};

verus! {

/// One summarization run between service calls: the chunks still to be
/// summarized, the partial summaries collected so far, and the final
/// summary once the reduce call has answered.
pub struct Pipeline {
    chunks: Vec<String>,
    partials: Vec<String>,
    summary: Option<String>,
}

impl Pipeline {
    /// The chunk texts, in document order.
    pub closed spec fn chunks_view(self) -> Seq<Seq<char>> {
        self.chunks.deep_view()
    }

    /// The partial summaries collected so far, one per answered map
    /// call, in chunk order.
    pub closed spec fn partials_view(self) -> Seq<Seq<char>> {
        self.partials.deep_view()
    }

    /// The final summary, once the reduce call has answered.
    pub closed spec fn summary_view(self) -> Option<Seq<char>> {
        match self.summary {
            Some(s) => Some(s@),
            None => None,
        }
    }

    /// Some map call has not been answered yet.
    pub open spec fn in_map_phase(self) -> bool {
        self.partials_view().len() < self.chunks_view().len()
    }

    /// Every map call has been answered and the reduce call has not.
    pub open spec fn in_reduce_phase(self) -> bool {
        &&& self.partials_view().len() == self.chunks_view().len()
        &&& self.chunks_view().len() > 0
        &&& self.summary_view() is None
    }

    /// Nothing is owed to or by the service any more. A document with
    /// no words yields no chunks and is done at once: the service is
    /// never called for it.
    pub open spec fn done(self) -> bool {
        self.summary_view() is Some || self.chunks_view().len() == 0
    }

    /// There is never more than one partial summary per chunk, and the
    /// final summary exists only after every chunk's map call was
    /// answered.
    pub open spec fn wf(self) -> bool {
        &&& self.partials_view().len() <= self.chunks_view().len()
        &&& (self.summary_view() is Some ==> self.partials_view().len()
            == self.chunks_view().len() && self.chunks_view().len() > 0)
    }

    /// The outcome of the run: the reduce response once it arrived, the
    /// empty summary for a document with no chunks, nothing before
    /// that.
    pub open spec fn outcome(self) -> Option<Seq<char>> {
        if self.summary_view() is Some {
            self.summary_view()
        } else if self.chunks_view().len() == 0 {
            Some(Seq::<char>::empty())
        } else {
            None
        }
    }

    /// A well-formed pipeline is always in exactly one of the three
    /// states: mapping, reducing, or done.
    pub proof fn lemma_phases_partition(self)
        requires
            self.wf(),
        ensures
            self.in_map_phase() || self.in_reduce_phase() || self.done(),
            self.in_map_phase() ==> !self.in_reduce_phase() && !self.done(),
            self.in_reduce_phase() ==> !self.done(),
    {
    }

    /// Begin a run: split the document into chunks; no service call has
    /// been made yet.
    pub fn start(document: &str, chunk_size: usize, chunk_overlap: usize) -> (p: Pipeline)
        ensures
            p.wf(),
            p.chunks_view() == split_spec(document@, chunk_size as int, chunk_overlap as int),
            p.partials_view() == Seq::<Seq<char>>::empty(),
            p.summary_view() is None,
    {
        let chunks = split_text(document, chunk_size, chunk_overlap);
        let p = Pipeline { chunks, partials: Vec::new(), summary: None };
        proof {
            assert(p.partials_view() =~= Seq::<Seq<char>>::empty());
        }
        p
    }

    /// How many chunks the document was split into.
    pub fn chunk_count(&self) -> (r: usize)
        ensures
            r == self.chunks_view().len(),
    {
        self.chunks.len()
    }

    /// The chunk at `idx`.
    pub fn chunk_at(&self, idx: usize) -> (r: &String)
        requires
            idx < self.chunks_view().len(),
        ensures
            r@ == self.chunks_view()[idx as int],
    {
        proof {
            assert(self.chunks_view()[idx as int] == self.chunks@[idx as int]@);
        }
        &self.chunks[idx]
    }

    /// Whether the run is finished.
    pub fn is_done(&self) -> (r: bool)
        ensures
            r == self.done(),
    {
        self.summary.is_some() || self.chunks.len() == 0
    }

    /// The next prompt owed to the generation service: the map prompt
    /// of the first unanswered chunk, then the reduce prompt over the
    /// partial summaries joined by blank lines, then nothing.
    pub fn next_prompt(&self) -> (r: Option<String>)
        requires
            self.wf(),
        ensures
            self.in_map_phase() ==> r is Some && r->0@ == map_prompt_of(
                self.chunks_view()[self.partials_view().len() as int],
            ),
            self.in_reduce_phase() ==> r is Some && r->0@ == combine_prompt_of(
                join_sep(self.partials_view(), "\n\n"@),
            ),
            self.done() ==> r is None,
    {
        if self.chunks.len() == 0 {
            return None;
        }
        match &self.summary {
            Some(_) => None,
            None => {
                if self.partials.len() < self.chunks.len() {
                    let idx = self.partials.len();
                    proof {
                        assert(self.chunks_view()[idx as int] == self.chunks@[idx as int]@);
                    }
                    Some(build_map_prompt(self.chunks[idx].as_str()))
                } else {
                    let combined = combine_partials(&self.partials);
                    Some(build_combine_prompt(combined.as_str()))
                }
            },
        }
    }

    /// Hand the service's response back: it becomes the next partial
    /// summary during the map phase, and the final summary during the
    /// reduce phase.
    pub fn record_response(&mut self, response: String)
        requires
            old(self).wf(),
            !old(self).done(),
        ensures
            final(self).wf(),
            final(self).chunks_view() == old(self).chunks_view(),
            old(self).in_map_phase() ==> final(self).partials_view() == old(
                self,
            ).partials_view().push(response@) && final(self).summary_view() == old(
                self,
            ).summary_view(),
            old(self).in_reduce_phase() ==> final(self).partials_view() == old(
                self,
            ).partials_view() && final(self).summary_view() == Some(response@),
    {
        if self.partials.len() < self.chunks.len() {
            let ghost prev = self.partials.deep_view();
            self.partials.push(response);
            proof {
                assert(self.partials.deep_view() =~= prev.push(response@));
            }
        } else {
            self.summary = Some(response);
        }
    }

    /// The final summary, if the run is finished.
    pub fn final_summary(&self) -> (r: Option<String>)
        requires
            self.wf(),
        ensures
            r is Some <==> self.done(),
            r is Some ==> self.outcome() == Some(r->0@),
    {
        match &self.summary {
            Some(s) => Some(s.clone()),
            None => {
                if self.chunks.len() == 0 {
                    Some(String::new())
                } else {
                    None
                }
            },
        }
    }
}

} // verus!
