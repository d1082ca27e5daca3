//! The read-loop state machine of one `op` call.
//!
//! The embedding program owns the socket: it writes the encoded
//! request, then reads chunks of bytes and hands each to
//! [`OpReader::feed`] until `feed` reports the terminal message, the
//! stream breaks, or the read times out.  [`OpReader::finish`] then
//! settles the call: the collected sequence, or `ConnectionLost` when
//! the peer fell silent before the terminal message.
//!
//! What one call collects is specified by [`drain`]: the validated
//! dict messages that the buffered bytes hold, cut off the front one
//! after the other until the terminal message, an incomplete tail,
//! or the first flaw.

use vstd::prelude::*;

use crate::bencode::{obj_v, parse_value, pairs_v, sp_value, ObjV, Object, ParseErr, Parsed};
use crate::nrepl::{
    is_final_resp, keys_verdict_v, lemma_keys_verdict_view, resp_has_key, Error, KeyVerdict, Resp,
};
use vstd::utf8::decode_utf8;

verus! {

/// Whether `r` is the terminal message of a response sequence.
pub open spec fn resp_is_final(r: Resp) -> bool {
    resp_has_key(r, "status"@)
}

/// Whether a message — given as its dict's abstracted pairs —
/// carries the `status` key that marks the end of the sequence.
pub open spec fn msg_is_final(ps: Seq<(Seq<u8>, ObjV)>) -> bool {
    exists|i: int| 0 <= i < ps.len() && decode_utf8(ps[i].0) == "status"@
}

/// Whether `r` is the response built from the message `ps`: the same
/// entries in the same order, each key decoded from UTF-8 and each
/// value untouched.
pub open spec fn resp_matches(r: Resp, ps: Seq<(Seq<u8>, ObjV)>) -> bool {
    &&& r.spec_entries().len() == ps.len()
    &&& forall|i: int|
        #![trigger r.spec_entries()[i]]
        0 <= i < ps.len() ==> r.spec_entries()[i].0@ == decode_utf8(ps[i].0) && obj_v(
            r.spec_entries()[i].1,
        ) == ps[i].1
}

/// How one pass over the buffered bytes ends.
pub enum DrainEnd {
    /// A terminal message closed the sequence.
    Done,
    /// The bytes stop mid-value: more input is needed.
    More,
    /// The bytes break the bencode encoding.
    BadBytes,
    /// A complete value arrived, but it is not a dict.
    NotDict(ObjV),
    /// A dict arrived whose keys are flawed; judged by
    /// [`keys_verdict_v`] on these pairs.
    BadPairs(Seq<(Seq<u8>, ObjV)>),
}

/// What one pass over the buffered bytes yields: the accepted
/// messages, in arrival order, and how the pass ended.
pub struct Drained {
    pub msgs: Seq<Seq<(Seq<u8>, ObjV)>>,
    pub end: DrainEnd,
}

/// Cuts validated dict messages off the front of `b`, one after the
/// other, stopping at the terminal message, at an incomplete tail,
/// or at the first flaw.
pub open spec fn drain(b: Seq<u8>) -> Drained
    decreases b.len(),
{
    match sp_value(b) {
        Parsed::More => Drained { msgs: Seq::empty(), end: DrainEnd::More },
        Parsed::Bad => Drained { msgs: Seq::empty(), end: DrainEnd::BadBytes },
        Parsed::Found(o, n) => match o {
            ObjV::Dict(ps) => {
                if !(keys_verdict_v(ps, 0) is Accept) {
                    Drained { msgs: Seq::empty(), end: DrainEnd::BadPairs(ps) }
                } else if msg_is_final(ps) {
                    Drained { msgs: seq![ps], end: DrainEnd::Done }
                } else if 1 <= n && n <= b.len() {
                    let rest = drain(b.skip(n));
                    Drained { msgs: seq![ps] + rest.msgs, end: rest.end }
                } else {
                    Drained { msgs: Seq::empty(), end: DrainEnd::BadBytes }
                }
            },
            other => Drained { msgs: Seq::empty(), end: DrainEnd::NotDict(other) },
        },
    }
}

/// Accumulates the response messages of one operation: raw bytes go
/// in, complete messages are cut off the front and validated, and
/// the terminal message closes the sequence.
pub struct OpReader {
    buf: Vec<u8>,
    start: usize,
    resps: Vec<Resp>,
    done: bool,
}

impl OpReader {
    /// All collected messages, in arrival order.
    pub closed spec fn spec_resps(self) -> Seq<Resp> {
        self.resps@
    }

    /// Whether the terminal message has arrived.
    pub closed spec fn spec_done(self) -> bool {
        self.done
    }

    /// The buffered bytes not yet consumed by a complete message.
    pub closed spec fn spec_pending(self) -> Seq<u8> {
        self.buf@.skip(self.start as int)
    }

    /// The reader's invariant: only a closed sequence ends in a
    /// terminal message, and only its last message is terminal.
    pub closed spec fn wf(self) -> bool {
        &&& self.start <= self.buf@.len()
        &&& (self.done ==> self.resps@.len() > 0)
        &&& (forall|i: int|
            0 <= i < self.resps@.len() ==> (resp_is_final(self.resps@[i]) <==> (self.done && i
                == self.resps@.len() - 1)))
    }

    /// A fresh reader with nothing received yet.
    pub fn new() -> (r: OpReader)
        ensures
            r.wf(),
            !r.spec_done(),
            r.spec_resps() == Seq::<Resp>::empty(),
            r.spec_pending() == Seq::<u8>::empty(),
    {
        let r = OpReader { buf: Vec::new(), start: 0, resps: Vec::new(), done: false };
        proof {
            assert(r.spec_resps() =~= Seq::<Resp>::empty());
            assert(r.spec_pending() =~= Seq::<u8>::empty());
        }
        r
    }

    /// Whether the terminal message has arrived.
    pub fn is_done(&self) -> (b: bool)
        ensures
            b == self.spec_done(),
    {
        self.done
    }

    /// Takes freshly received bytes and cuts off as many complete
    /// messages as they hold, exactly as [`drain`] reads the pending
    /// bytes followed by `chunk`: each drained message is validated
    /// and appended, in arrival order.  `Ok(true)` means the drain
    /// reached the terminal message; `Ok(false)` means it stopped at
    /// an incomplete tail and more bytes are needed; otherwise the
    /// drain's first flaw comes back as the matching error —
    /// `BencodeDecodeError` for broken bytes, `UnexpectedBencodeObject`
    /// for a non-dict value, `BadBencodeString` or
    /// `DuplicatedKeyError` as the key verdict names — and the
    /// sequence is abandoned.
    pub fn feed(&mut self, chunk: &Vec<u8>) -> (r: Result<bool, Error>)
        requires
            old(self).wf(),
            !old(self).spec_done(),
        ensures
            r matches Ok(done) ==> final(self).wf() && done == final(self).spec_done() && old(
                self,
            ).spec_resps().is_prefix_of(final(self).spec_resps()),
            r matches Ok(done) ==> final(self).spec_resps().len() == old(self).spec_resps().len()
                + drain(old(self).spec_pending() + chunk@).msgs.len() && (forall|k: int|
                0 <= k < drain(old(self).spec_pending() + chunk@).msgs.len() ==> resp_matches(
                    final(self).spec_resps()[old(self).spec_resps().len() + k],
                    #[trigger] drain(old(self).spec_pending() + chunk@).msgs[k],
                )) && (done <==> drain(old(self).spec_pending() + chunk@).end is Done) && (!done
                ==> drain(old(self).spec_pending() + chunk@).end is More),
            r matches Err(e) ==> (match drain(old(self).spec_pending() + chunk@).end {
                DrainEnd::Done => false,
                DrainEnd::More => false,
                DrainEnd::BadBytes => e == Error::BencodeDecodeError,
                DrainEnd::NotDict(ov) => e matches Error::UnexpectedBencodeObject(o) && obj_v(o)
                    == ov,
                DrainEnd::BadPairs(ps) => (match keys_verdict_v(ps, 0) {
                    KeyVerdict::Accept => false,
                    KeyVerdict::BadKey(j) => e matches Error::BadBencodeString(b) && b@ == ps[j].0,
                    KeyVerdict::Dup(j) => e matches Error::DuplicatedKeyError(s) && s@
                        == decode_utf8(ps[j].0),
                }),
            }),
    {
        let ghost stream0 = old(self).spec_pending() + chunk@;
        let mut k: usize = 0;
        while k < chunk.len()
            invariant
                k <= chunk@.len(),
                self.start == old(self).start,
                self.resps@ == old(self).resps@,
                self.done == old(self).done,
                self.buf@ == old(self).buf@ + chunk@.take(k as int),
                self.start <= self.buf@.len(),
            decreases chunk@.len() - k,
        {
            self.buf.push(chunk[k]);
            proof {
                assert(self.buf@ =~= old(self).buf@ + chunk@.take(k as int + 1));
            }
            k = k + 1;
        }
        proof {
            assert(chunk@.take(chunk@.len() as int) =~= chunk@);
            assert(self.buf@.skip(self.start as int) =~= stream0);
        }
        let ghost r0 = old(self).spec_resps();
        loop
            invariant
                !self.done,
                self.start <= self.buf@.len(),
                stream0 == old(self).spec_pending() + chunk@,
                r0 == old(self).spec_resps(),
                r0.len() <= self.resps@.len(),
                r0.is_prefix_of(self.resps@),
                forall|i: int| 0 <= i < self.resps@.len() ==> !resp_is_final(self.resps@[i]),
                drain(stream0).msgs.len() == (self.resps@.len() - r0.len()) + drain(
                    self.buf@.skip(self.start as int),
                ).msgs.len(),
                forall|j: int|
                    0 <= j < self.resps@.len() - r0.len() ==> resp_matches(
                        self.resps@[r0.len() + j],
                        #[trigger] drain(stream0).msgs[j],
                    ),
                forall|j: int|
                    0 <= j < drain(self.buf@.skip(self.start as int)).msgs.len() ==> drain(
                        stream0,
                    ).msgs[(self.resps@.len() - r0.len()) + j] == #[trigger] drain(
                        self.buf@.skip(self.start as int),
                    ).msgs[j],
                drain(stream0).end == drain(self.buf@.skip(self.start as int)).end,
            decreases self.buf@.len() - self.start,
        {
            let ghost cur = self.buf@.skip(self.start as int);
            let ghost consumed = self.resps@.len() - r0.len();
            match parse_value(&self.buf, self.start) {
                Err(ParseErr::Incomplete) => {
                    proof {
                        assert(drain(cur).end is More);
                        assert(drain(cur).msgs.len() == 0);
                    }
                    return Ok(false);
                },
                Err(ParseErr::Malformed) => {
                    proof {
                        assert(drain(cur).end is BadBytes);
                    }
                    return Err(Error::BencodeDecodeError);
                },
                Ok((o, end)) => {
                    let ghost n = end - self.start;
                    proof {
                        assert(sp_value(cur) == Parsed::<ObjV>::Found(obj_v(o), n));
                        assert(1 <= n && n <= cur.len());
                    }
                    match o {
                        Object::BDict(ps) => {
                            let ghost psv = pairs_v(ps, 0);
                            let ghost pse = ps@;
                            proof {
                                lemma_keys_verdict_view(ps, 0);
                                crate::bencode::lemma_pairs_v_all(ps);
                                assert(obj_v(Object::BDict(ps)) == ObjV::Dict(psv));
                            }
                            let mut ps = ps;
                            match Resp::from_dict_pairs(&mut ps) {
                                Ok(resp) => {
                                    proof {
                                        assert(keys_verdict_v(psv, 0) is Accept);
                                        assert(resp_matches(resp, psv));
                                    }
                                    let fin = is_final_resp(&resp);
                                    proof {
                                        if resp_has_key(resp, "status"@) {
                                            let i = choose|i: int|
                                                0 <= i < resp.spec_entries().len()
                                                    && resp.spec_entries()[i].0@ == "status"@;
                                            assert(decode_utf8(psv[i].0) == "status"@);
                                            assert(msg_is_final(psv));
                                        }
                                        if msg_is_final(psv) {
                                            let i = choose|i: int|
                                                0 <= i < psv.len() && decode_utf8(psv[i].0)
                                                    == "status"@;
                                            assert(resp.spec_entries()[i].0@ == "status"@);
                                            assert(resp_has_key(resp, "status"@));
                                        }
                                        assert(fin == msg_is_final(psv));
                                    }
                                    self.start = end;
                                    self.resps.push(resp);
                                    if fin {
                                        self.done = true;
                                        proof {
                                            assert(drain(cur).msgs =~= seq![psv]);
                                            assert(drain(cur).end is Done);
                                            assert(drain(cur).msgs[0] == psv);
                                            assert(drain(stream0).msgs[consumed as int + 0]
                                                == drain(cur).msgs[0]);
                                            assert(drain(stream0).msgs[consumed as int] == psv);
                                        }
                                        return Ok(true);
                                    }
                                    proof {
                                        let cur2 = self.buf@.skip(self.start as int);
                                        assert(cur2 =~= cur.skip(n));
                                        assert(drain(cur).msgs == seq![psv] + drain(cur2).msgs);
                                        assert(drain(cur).end == drain(cur2).end);
                                        assert(drain(stream0).msgs[consumed as int] == drain(
                                            cur,
                                        ).msgs[0]);
                                        assert(drain(cur).msgs[0] == psv);
                                        assert(resp_matches(resp, drain(stream0).msgs[
                                        consumed as int]));
                                        assert forall|j: int|
                                            0 <= j < drain(cur2).msgs.len() implies drain(
                                            stream0,
                                        ).msgs[(self.resps@.len() - r0.len()) + j] == #[trigger] drain(
                                            cur2,
                                        ).msgs[j] by {
                                            assert(drain(cur).msgs[j + 1] == drain(cur2).msgs[j]);
                                            assert(drain(stream0).msgs[consumed as int + (j + 1)]
                                                == drain(cur).msgs[j + 1]);
                                        }
                                    }
                                },
                                Err(e) => {
                                    proof {
                                        assert(!(keys_verdict_v(psv, 0) is Accept));
                                        assert(drain(cur).end == DrainEnd::BadPairs(psv));
                                        crate::nrepl::lemma_keys_verdict_v_range(psv, 0);
                                        match keys_verdict_v(psv, 0) {
                                            KeyVerdict::Accept => {
                                                assert(false);
                                            },
                                            KeyVerdict::BadKey(j) => {
                                                assert(pse[j].0@ == psv[j].0);
                                            },
                                            KeyVerdict::Dup(j) => {
                                                assert(pse[j].0@ == psv[j].0);
                                            },
                                        }
                                    }
                                    return Err(e);
                                },
                            }
                        },
                        other => {
                            proof {
                                assert(!(obj_v(other) is Dict));
                                assert(drain(cur).end == DrainEnd::NotDict(obj_v(other)));
                            }
                            return Err(Error::UnexpectedBencodeObject(other));
                        },
                    }
                },
            }
        }
    }

    /// Settles the call once no more bytes will come.  A closed
    /// sequence is handed back whole: nonempty, terminal exactly at
    /// its last message.  If the peer fell silent — end of stream or
    /// a read timeout — before the terminal message, the whole call
    /// fails with `ConnectionLost`.
    pub fn finish(self) -> (r: Result<Vec<Resp>, Error>)
        requires
            self.wf(),
        ensures
            self.spec_done() ==> (r matches Ok(rs) && rs@ == self.spec_resps() && rs@.len() > 0 && (
            forall|i: int| 0 <= i < rs@.len() ==> (resp_is_final(rs@[i]) <==> i == rs@.len() - 1))),
            !self.spec_done() ==> r matches Err(Error::ConnectionLost),
    {
        if self.done {
            Ok(self.resps)
        } else {
            Err(Error::ConnectionLost)
        }
    }
}

} // verus!
