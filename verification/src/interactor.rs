//! The commands the scheduler exchanges with the judge.
use vstd::prelude::*;
use crate::types::{Graph, Input, Packet, N_SPECIAL};

verus! {

/// One exchange with the judge: a command sent, with the answer it got.
pub enum Exchange {
    /// The packets received at `t`: how many the judge said, and which.
    Receive { t: i64, count: usize, packets: Ghost<Seq<Packet>> },
    /// A call of node `node_id` on core `core_id` at `t` for the packets
    /// `ids`, charged as a batch of `s`.
    Execute { t: i64, core_id: usize, node_id: usize, s: usize, ids: Ghost<Seq<usize>> },
    /// The special works of packet `i` asked for at `t`, and the answer.
    Works { t: i64, i: usize, answer: Option<[bool; N_SPECIAL]> },
    /// The end of the subtask.
    Finish,
}

/// The commands the judge answers. Implementations talk to the real judge or
/// play one; each command is one more exchange in the interactor's log.
pub trait Interactor {
    /// The exchanges so far, in order. Each command's `ensures` says what it
    /// adds to the log; those promises are believed of every implementation.
    /// The default body exists only so that implementations outside the
    /// verified library (the program's judge, test doubles) need not name a
    /// log; verified implementations define their own.
    closed spec fn log(&self) -> Seq<Exchange> {
        Seq::empty()
    }

    fn read_graph(&mut self) -> Graph;

    fn read_input(&mut self) -> Input;

    fn read_n(&mut self) -> usize;

    fn send_receive_packets(&mut self, t: i64) -> (r: (usize, Vec<Packet>))
        ensures
            final(self).log() == old(self).log().push(Exchange::Receive { t, count: r.0, packets: Ghost(r.1@) }),
    ;

    fn send_execute(&mut self, t: i64, core_id: usize, node_id: usize, s: usize, ids: &[usize])
        ensures
            final(self).log() == old(self).log().push(Exchange::Execute { t, core_id, node_id, s, ids: Ghost(ids@) }),
    ;

    fn send_query_works(&mut self, t: i64, i: usize) -> (r: Option<[bool; N_SPECIAL]>)
        ensures
            final(self).log() == old(self).log().push(Exchange::Works { t, i, answer: r }),
    ;

    fn send_finish(&mut self)
        ensures
            final(self).log() == old(self).log().push(Exchange::Finish),
    ;
}

} // verus!
