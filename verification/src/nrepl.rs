//! Operation requests, decoded responses, and the error taxonomy.

use vstd::prelude::*;

use crate::bencode::{
    bpairs_v, enc_objv, insert_le, insert_pair, lemma_bpairs_v_all,
    lemma_str_pairs_v_all, push_bstr, sort_from, sort_pairs, str_pairs_v, strdict_v, Object,
    TOK_DICT, TOK_END,
};
use vstd::utf8::{decode_utf8, encode_utf8, valid_utf8};

verus! {

/// Everything that can go wrong during one `op` round trip: the
/// connection, the codec, or the structure of a response.
#[derive(Debug, PartialEq)]
pub enum Error {
    /// The peer went away, or fell silent past the read timeout.
    ConnectionLost,
    /// The request could not be encoded for the wire.
    BencodeEncodeError,
    /// Malformed bencode bytes arrived on the wire.
    BencodeDecodeError,
    /// A response message was a well-formed value, but not a dict.
    UnexpectedBencodeObject(Object),
    /// Reading or writing the socket failed outright.
    IOError,
    /// A response dict key was not valid UTF-8; holds the raw key.
    BadBencodeString(Vec<u8>),
    /// A response dict repeated a key; holds the repeated key.
    DuplicatedKeyError(String),
}

/// One outbound operation request: an operation name plus
/// string-valued named arguments.
pub struct Op {
    name: String,
    args: Vec<(String, String)>,
}

/// The byte-pair wire form of the arguments from index `i` on.
pub open spec fn arg_pairs(args: Seq<(String, String)>, i: int) -> Seq<(Seq<u8>, Seq<u8>)>
    decreases args.len() - i,
{
    if i < 0 || i >= args.len() {
        Seq::empty()
    } else {
        seq![(encode_utf8(args[i].0@), encode_utf8(args[i].1@))] + arg_pairs(args, i + 1)
    }
}

/// All key/value byte pairs of a request: the `op` entry plus the
/// arguments, in the order supplied.
pub open spec fn op_wire_pairs(name: Seq<char>, args: Seq<(String, String)>) -> Seq<
    (Seq<u8>, Seq<u8>),
> {
    seq![(encode_utf8("op"@), encode_utf8(name))] + arg_pairs(args, 0)
}

/// Canonical wire form of a request: its pairs sorted by key, then
/// emitted as a bencode dict of byte strings.
pub open spec fn spec_encode_op(name: Seq<char>, args: Seq<(String, String)>) -> Seq<u8> {
    enc_objv(strdict_v(sort_pairs(op_wire_pairs(name, args))))
}

impl Op {
    /// The operation name, as a character sequence.
    pub closed spec fn spec_name(self) -> Seq<char> {
        self.name@
    }

    /// The argument pairs, in the order supplied.
    pub closed spec fn spec_args(self) -> Seq<(String, String)> {
        self.args@
    }

    pub fn new(name: String, args: Vec<(String, String)>) -> (r: Op)
        ensures
            r.spec_name() == name@,
            r.spec_args() == args@,
    {
        Op { name, args }
    }

    /// Encodes this request as a single bencode dict whose keys —
    /// `op` plus the argument names — appear in ascending byte order.
    pub fn encode(&self) -> (r: Vec<u8>)
        ensures
            r@ == spec_encode_op(self.spec_name(), self.spec_args()),
    {
        let ghost all = op_wire_pairs(self.name@, self.args@);
        let mut sorted: Vec<(Vec<u8>, Vec<u8>)> = Vec::new();
        let op_key = vstd::slice::slice_to_vec(("op").as_bytes());
        let op_name = vstd::slice::slice_to_vec(self.name.as_str().as_bytes());
        insert_pair(&mut sorted, (op_key, op_name));
        proof {
            assert(all.drop_first() =~= arg_pairs(self.args@, 0));
            assert(insert_le(bpairs_v(Seq::empty(), 0), all[0]) == insert_le(
                Seq::empty(),
                all[0],
            ));
            assert(sort_pairs(all) == sort_from(
                insert_le(Seq::empty(), all[0]),
                arg_pairs(self.args@, 0),
            ));
        }
        let mut i: usize = 0;
        while i < self.args.len()
            invariant
                i <= self.args@.len(),
                all == op_wire_pairs(self.name@, self.args@),
                sort_from(bpairs_v(sorted@, 0), arg_pairs(self.args@, i as int)) == sort_pairs(
                    all,
                ),
            decreases self.args@.len() - i,
        {
            let kb = vstd::slice::slice_to_vec(self.args[i].0.as_str().as_bytes());
            let vb = vstd::slice::slice_to_vec(self.args[i].1.as_str().as_bytes());
            let ghost before = bpairs_v(sorted@, 0);
            let ghost rest = arg_pairs(self.args@, i as int);
            insert_pair(&mut sorted, (kb, vb));
            proof {
                assert(rest[0] == (encode_utf8(self.args@[i as int].0@), encode_utf8(
                    self.args@[i as int].1@,
                )));
                assert(rest.drop_first() =~= arg_pairs(self.args@, i as int + 1));
                assert(sort_from(before, rest) == sort_from(
                    insert_le(before, rest[0]),
                    rest.drop_first(),
                ));
            }
            i = i + 1;
        }
        let ghost sortedv = bpairs_v(sorted@, 0);
        proof {
            assert(arg_pairs(self.args@, self.args@.len() as int) =~= Seq::<
                (Seq<u8>, Seq<u8>),
            >::empty());
            assert(sortedv == sort_pairs(all));
            lemma_bpairs_v_all(sorted@);
            lemma_str_pairs_v_all(sortedv);
        }
        let ghost spv = str_pairs_v(sortedv, 0);
        let mut out: Vec<u8> = Vec::new();
        out.push(TOK_DICT);
        let mut j: usize = 0;
        while j < sorted.len()
            invariant
                j <= sorted@.len(),
                sortedv == bpairs_v(sorted@, 0),
                sortedv.len() == sorted@.len(),
                forall|k: int|
                    0 <= k < sorted@.len() ==> sortedv[k] == (sorted@[k].0@, sorted@[k].1@),
                spv == str_pairs_v(sortedv, 0),
                spv.len() == sortedv.len(),
                forall|k: int|
                    0 <= k < sortedv.len() ==> spv[k] == (
                        sortedv[k].0,
                        crate::bencode::ObjV::Bytes(sortedv[k].1),
                    ),
                out@ + crate::bencode::enc_pairs(spv, j as int) == seq![TOK_DICT]
                    + crate::bencode::enc_pairs(spv, 0),
            decreases sorted@.len() - j,
        {
            let ghost out0 = out@;
            push_bstr(&mut out, &sorted[j].0);
            push_bstr(&mut out, &sorted[j].1);
            proof {
                assert(crate::bencode::enc_pairs(spv, j as int) == crate::bencode::enc_pair(
                    spv[j as int],
                ) + crate::bencode::enc_pairs(spv, j as int + 1));
                assert(crate::bencode::enc_pair(spv[j as int]) == crate::bencode::enc_bstr(
                    sorted@[j as int].0@,
                ) + enc_objv(crate::bencode::ObjV::Bytes(sorted@[j as int].1@)));
                assert(out@ + crate::bencode::enc_pairs(spv, j as int + 1) =~= out0
                    + crate::bencode::enc_pairs(spv, j as int));
            }
            j = j + 1;
        }
        out.push(TOK_END);
        proof {
            assert(out@ =~= spec_encode_op(self.spec_name(), self.spec_args()));
        }
        out
    }
}

/// Length and elements of [`arg_pairs`] taken from the start.
pub proof fn lemma_arg_pairs_all(args: Seq<(String, String)>)
    ensures
        arg_pairs(args, 0).len() == args.len(),
        forall|j: int|
            0 <= j < args.len() ==> arg_pairs(args, 0)[j] == (
                encode_utf8(args[j].0@),
                encode_utf8(args[j].1@),
            ),
{
    lemma_arg_pairs_from(args, 0);
    assert forall|j: int| 0 <= j < args.len() implies arg_pairs(args, 0)[j] == (
    encode_utf8(args[j].0@),
    encode_utf8(args[j].1@),
    ) by {
        lemma_arg_pairs_from(args, 0);
        assert(arg_pairs(args, 0)[j - 0] == (encode_utf8(args[j].0@), encode_utf8(args[j].1@)));
    }
}

proof fn lemma_arg_pairs_from(args: Seq<(String, String)>, i: int)
    requires
        0 <= i <= args.len(),
    ensures
        arg_pairs(args, i).len() == args.len() - i,
        forall|j: int|
            i <= j < args.len() ==> arg_pairs(args, i)[j - i] == (
                encode_utf8(args[j].0@),
                encode_utf8(args[j].1@),
            ),
    decreases args.len() - i,
{
    if i < args.len() {
        lemma_arg_pairs_from(args, i + 1);
    }
}

/// The canonical request dict is sorted: its pairs — the `op` entry
/// and every argument — come out ordered by key and then value, and
/// are exactly the supplied pairs, rearranged.
pub proof fn lemma_request_pairs_sorted(name: Seq<char>, args: Seq<(String, String)>)
    ensures
        vstd::relations::sorted_by(
            crate::bencode::sort_pairs(op_wire_pairs(name, args)),
            crate::bencode::pair_le_fn(),
        ),
        crate::bencode::sort_pairs(op_wire_pairs(name, args)).to_multiset() == op_wire_pairs(
            name,
            args,
        ).to_multiset(),
{
    crate::bencode::lemma_sort_pairs(op_wire_pairs(name, args));
}

/// In the canonical encoding the keys stand in strictly ascending
/// byte order, provided the supplied keys — `op` and the argument
/// names — are pairwise distinct, as the protocol's requests have
/// them.
pub proof fn lemma_request_keys_strictly_ascending(name: Seq<char>, args: Seq<(String, String)>)
    requires
        forall|i: int, j: int|
            0 <= i < j < op_wire_pairs(name, args).len() ==> (#[trigger] op_wire_pairs(name, args)[i]).0
                != (#[trigger] op_wire_pairs(name, args)[j]).0,
    ensures
        forall|i: int|
            #![trigger crate::bencode::sort_pairs(op_wire_pairs(name, args))[i]]
            0 <= i < crate::bencode::sort_pairs(op_wire_pairs(name, args)).len() - 1
                ==> crate::bencode::bytes_le(
                crate::bencode::sort_pairs(op_wire_pairs(name, args))[i].0,
                crate::bencode::sort_pairs(op_wire_pairs(name, args))[i + 1].0,
            ) && crate::bencode::sort_pairs(op_wire_pairs(name, args))[i].0
                != crate::bencode::sort_pairs(op_wire_pairs(name, args))[i + 1].0,
{
    broadcast use vstd::seq_lib::group_to_multiset_ensures;
    broadcast use vstd::multiset::group_multiset_axioms;

    let w = op_wire_pairs(name, args);
    let t = crate::bencode::sort_pairs(w);
    crate::bencode::lemma_sort_pairs(w);
    assert(w.no_duplicates());
    w.lemma_multiset_has_no_duplicates();
    assert(forall|x: (Seq<u8>, Seq<u8>)|
        t.to_multiset().contains(x) ==> t.to_multiset().count(x) == 1);
    t.lemma_multiset_has_no_duplicates_conv();
    assert forall|i: int, j: int| 0 <= i < j < t.len() implies (#[trigger] t[i]).0 != (
    #[trigger] t[j]).0 by {
        if t[i].0 == t[j].0 {
            assert(t[i] != t[j]);
            assert(t.contains(t[i]));
            assert(t.to_multiset().count(t[i]) > 0);
            assert(w.to_multiset().count(t[i]) > 0);
            assert(w.contains(t[i]));
            assert(t.contains(t[j]));
            assert(t.to_multiset().count(t[j]) > 0);
            assert(w.to_multiset().count(t[j]) > 0);
            assert(w.contains(t[j]));
            let a = choose|a: int| 0 <= a < w.len() && w[a] == t[i];
            let b = choose|b: int| 0 <= b < w.len() && w[b] == t[j];
            assert(w[a] != w[b]);
            if a < b {
                assert(w[a].0 != w[b].0);
            } else {
                assert(w[b].0 != w[a].0);
            }
        }
    }
    crate::bencode::lemma_sorted_unique_keys_ascend(t);
}

/// The wire pairs of two argument lists with the same entries are
/// the same up to order.
proof fn lemma_arg_pairs_multiset(args1: Seq<(String, String)>, args2: Seq<(String, String)>)
    requires
        args1.to_multiset() == args2.to_multiset(),
    ensures
        arg_pairs(args1, 0).to_multiset() == arg_pairs(args2, 0).to_multiset(),
    decreases args1.len(),
{
    broadcast use vstd::seq_lib::group_to_multiset_ensures;
    broadcast use vstd::multiset::group_multiset_axioms;

    if args1.len() == 0 {
        assert(args1.to_multiset().len() == args1.len());
        assert(args2.to_multiset().len() == args2.len());
        assert(args2.len() == 0);
        assert(arg_pairs(args1, 0) =~= arg_pairs(args2, 0));
    } else {
        let a = args1[0];
        assert(args1.contains(a));
        assert(args1.to_multiset().count(a) > 0);
        assert(args2.to_multiset().count(a) > 0);
        assert(args2.contains(a));
        let k = choose|k: int| 0 <= k < args2.len() && args2[k] == a;
        let d1 = args1.drop_first();
        let d2 = args2.remove(k);
        assert(args1.remove(0) =~= d1);
        assert(d1.to_multiset() =~= args1.to_multiset().remove(a));
        assert(d2.to_multiset() =~= args2.to_multiset().remove(a));
        lemma_arg_pairs_multiset(d1, d2);
        lemma_arg_pairs_all(args1);
        lemma_arg_pairs_all(d1);
        lemma_arg_pairs_all(args2);
        lemma_arg_pairs_all(d2);
        let f0 = (encode_utf8(a.0@), encode_utf8(a.1@));
        assert(arg_pairs(args1, 0) =~= seq![f0] + arg_pairs(d1, 0));
        vstd::seq_lib::lemma_multiset_commutative(seq![f0], arg_pairs(d1, 0));
        assert(Seq::<(Seq<u8>, Seq<u8>)>::empty().push(f0) =~= seq![f0]);
        assert(arg_pairs(args1, 0).to_multiset() =~= arg_pairs(d1, 0).to_multiset().insert(f0));
        assert(arg_pairs(d2, 0) =~= arg_pairs(args2, 0).remove(k));
        assert(arg_pairs(args2, 0)[k] == f0);
        assert(arg_pairs(args2, 0).remove(k).to_multiset() =~= arg_pairs(
            args2,
            0,
        ).to_multiset().remove(f0));
        assert(arg_pairs(args2, 0).contains(f0));
        assert(arg_pairs(args2, 0).to_multiset().count(f0) > 0);
        assert(arg_pairs(args1, 0).to_multiset() =~= arg_pairs(args2, 0).to_multiset());
    }
}

/// Encoding is deterministic in the arguments: two requests with the
/// same name and the same argument entries — in whatever order they
/// were supplied — encode to exactly the same bytes.
pub proof fn lemma_encode_order_independent(
    name: Seq<char>,
    args1: Seq<(String, String)>,
    args2: Seq<(String, String)>,
)
    requires
        args1.to_multiset() == args2.to_multiset(),
    ensures
        spec_encode_op(name, args1) == spec_encode_op(name, args2),
{
    broadcast use vstd::seq_lib::group_to_multiset_ensures;
    broadcast use vstd::multiset::group_multiset_axioms;

    lemma_arg_pairs_multiset(args1, args2);
    let op0 = (encode_utf8("op"@), encode_utf8(name));
    let w1 = op_wire_pairs(name, args1);
    let w2 = op_wire_pairs(name, args2);
    assert(w1 =~= seq![op0] + arg_pairs(args1, 0));
    assert(w2 =~= seq![op0] + arg_pairs(args2, 0));
    vstd::seq_lib::lemma_multiset_commutative(seq![op0], arg_pairs(args1, 0));
    vstd::seq_lib::lemma_multiset_commutative(seq![op0], arg_pairs(args2, 0));
    assert(w1.to_multiset() =~= w2.to_multiset());
    crate::bencode::lemma_sort_pairs(w1);
    crate::bencode::lemma_sort_pairs(w2);
    crate::bencode::lemma_pair_le_total_ordering();
    vstd::seq_lib::lemma_sorted_unique(
        crate::bencode::sort_pairs(w1),
        crate::bencode::sort_pairs(w2),
        crate::bencode::pair_le_fn(),
    );
    assert(crate::bencode::sort_pairs(w1) == crate::bencode::sort_pairs(w2));
}

/// Round trip: the canonical wire form of a request decodes back —
/// with this crate's own decoder specification — to exactly the
/// request's dict: its sorted key/value pairs, every value a byte
/// string, whatever bytes follow in the stream.
pub proof fn lemma_request_round_trip(
    name: Seq<char>,
    args: Seq<(String, String)>,
    rest: Seq<u8>,
)
    ensures
        crate::bencode::sp_value(spec_encode_op(name, args) + rest) == crate::bencode::Parsed::<
            crate::bencode::ObjV,
        >::Found(
            strdict_v(crate::bencode::sort_pairs(op_wire_pairs(name, args))),
            spec_encode_op(name, args).len() as int,
        ),
{
    crate::bencode::lemma_strdict_round_trip(
        crate::bencode::sort_pairs(op_wire_pairs(name, args)),
        rest,
    );
}

/// One decoded response message: string keys mapped to raw decoded
/// values, in wire order, with no key repeated.
#[derive(Debug)]
pub struct Resp {
    entries: Vec<(String, Object)>,
}

/// The verdict on a dict's keys, scanning from index `j`: all
/// accepted, or the first key that is not UTF-8, or the first key
/// that repeats an earlier one.
pub enum KeyVerdict {
    Accept,
    BadKey(int),
    Dup(int),
}

/// Scans the keys of `ps` from index `j` and reports the first flaw.
pub open spec fn keys_verdict(ps: Seq<(Vec<u8>, Object)>, j: int) -> KeyVerdict
    decreases ps.len() - j,
{
    if j < 0 || j >= ps.len() {
        KeyVerdict::Accept
    } else if !valid_utf8(ps[j].0@) {
        KeyVerdict::BadKey(j)
    } else if exists|i: int| 0 <= i < j && decode_utf8(ps[i].0@) == decode_utf8(ps[j].0@) {
        KeyVerdict::Dup(j)
    } else {
        keys_verdict(ps, j + 1)
    }
}

/// The same verdict, computed over the abstracted pair shapes.
pub open spec fn keys_verdict_v(ps: Seq<(Seq<u8>, crate::bencode::ObjV)>, j: int) -> KeyVerdict
    decreases ps.len() - j,
{
    if j < 0 || j >= ps.len() {
        KeyVerdict::Accept
    } else if !valid_utf8(ps[j].0) {
        KeyVerdict::BadKey(j)
    } else if exists|i: int| 0 <= i < j && decode_utf8(ps[i].0) == decode_utf8(ps[j].0) {
        KeyVerdict::Dup(j)
    } else {
        keys_verdict_v(ps, j + 1)
    }
}

/// A flawed verdict always points into the pairs.
pub proof fn lemma_keys_verdict_v_range(ps: Seq<(Seq<u8>, crate::bencode::ObjV)>, j0: int)
    requires
        0 <= j0 <= ps.len(),
    ensures
        keys_verdict_v(ps, j0) matches KeyVerdict::BadKey(j) ==> j0 <= j < ps.len(),
        keys_verdict_v(ps, j0) matches KeyVerdict::Dup(j) ==> j0 <= j < ps.len(),
    decreases ps.len() - j0,
{
    if j0 < ps.len() {
        if valid_utf8(ps[j0].0) && !(exists|i: int|
            0 <= i < j0 && decode_utf8(ps[i].0) == decode_utf8(ps[j0].0))  {
            lemma_keys_verdict_v_range(ps, j0 + 1);
        }
    }
}

/// The verdict over a dict's pairs agrees with the verdict over
/// their abstracted shapes.
pub proof fn lemma_keys_verdict_view(ps: Vec<(Vec<u8>, Object)>, j: int)
    requires
        0 <= j <= ps@.len(),
    ensures
        keys_verdict(ps@, j) == keys_verdict_v(crate::bencode::pairs_v(ps, 0), j),
    decreases ps@.len() - j,
{
    crate::bencode::lemma_pairs_v_all(ps);
    let pv2 = crate::bencode::pairs_v(ps, 0);
    if j < ps@.len() {
        assert(pv2[j].0 == ps@[j].0@);
        if valid_utf8(ps@[j].0@) {
            if exists|i: int| 0 <= i < j && decode_utf8(ps@[i].0@) == decode_utf8(ps@[j].0@) {
                let i = choose|i: int|
                    0 <= i < j && decode_utf8(ps@[i].0@) == decode_utf8(ps@[j].0@);
                assert(decode_utf8(pv2[i].0) == decode_utf8(pv2[j].0));
            }
            if exists|i: int| 0 <= i < j && decode_utf8(pv2[i].0) == decode_utf8(pv2[j].0) {
                let i = choose|i: int| 0 <= i < j && decode_utf8(pv2[i].0) == decode_utf8(pv2[j].0);
                assert(decode_utf8(ps@[i].0@) == decode_utf8(ps@[j].0@));
            }
            lemma_keys_verdict_view(ps, j + 1);
        }
    }
}

/// Whether `r` carries an entry under key `k`.
pub open spec fn resp_has_key(r: Resp, k: Seq<char>) -> bool {
    exists|i: int| 0 <= i < r.spec_entries().len() && r.spec_entries()[i].0@ == k
}

/// Whether no key occurs twice in `r`.
pub open spec fn resp_keys_unique(r: Resp) -> bool {
    forall|i: int, j: int|
        0 <= i < j < r.spec_entries().len() ==> r.spec_entries()[i].0@ != r.spec_entries()[j].0@
}

/// Relies on `String::from_utf8`: it succeeds exactly on valid UTF-8
/// input and yields the characters those bytes encode (vstd's
/// `valid_utf8` / `decode_utf8` state the same encoding); on failure
/// the original bytes are handed back.
#[verifier::external_body]
fn string_from_utf8(b: Vec<u8>) -> (r: Result<String, Vec<u8>>)
    ensures
        r matches Ok(s) ==> valid_utf8(b@) && s@ == decode_utf8(b@),
        r matches Err(bb) ==> bb@ == b@ && !valid_utf8(b@),
{
    match String::from_utf8(b) {
        Ok(s) => Ok(s),
        Err(e) => Err(e.into_bytes()),
    }
}

impl Resp {
    /// The entries of this response, in wire order.
    pub closed spec fn spec_entries(self) -> Seq<(String, Object)> {
        self.entries@
    }

    /// Builds a response from the decoded pairs of one wire dict.
    /// The first key that is not valid UTF-8 is reported as
    /// `BadBencodeString`; the first key that repeats an earlier one
    /// as `DuplicatedKeyError`; otherwise every pair is kept, in
    /// order, with its value untouched.
    pub fn from_dict_pairs(pairs: &mut Vec<(Vec<u8>, Object)>) -> (r: Result<Resp, Error>)
        ensures
            (match keys_verdict(old(pairs)@, 0) {
                KeyVerdict::Accept => r matches Ok(resp)
                    && resp.spec_entries().len() == old(pairs)@.len() && resp_keys_unique(resp)
                    && (forall|i: int|
                    0 <= i < old(pairs)@.len() ==> resp.spec_entries()[i].0@ == decode_utf8(
                        old(pairs)@[i].0@,
                    ) && resp.spec_entries()[i].1 == old(pairs)@[i].1),
                KeyVerdict::BadKey(j) => r matches Err(Error::BadBencodeString(b)) && b@ == old(
                    pairs,
                )@[j].0@,
                KeyVerdict::Dup(j) => r matches Err(Error::DuplicatedKeyError(s)) && s@
                    == decode_utf8(old(pairs)@[j].0@),
            }),
    {
        let ghost orig = old(pairs)@;
        let mut entries: Vec<(String, Object)> = Vec::new();
        while pairs.len() != 0
            invariant
                orig == old(pairs)@,
                entries@.len() <= orig.len(),
                pairs@ =~= orig.skip(entries@.len() as int),
                forall|i: int|
                    0 <= i < entries@.len() ==> valid_utf8(orig[i].0@) && entries@[i].0@
                        == decode_utf8(orig[i].0@) && entries@[i].1 == orig[i].1,
                forall|i1: int, i2: int|
                    0 <= i1 < i2 < entries@.len() ==> entries@[i1].0@ != entries@[i2].0@,
                keys_verdict(orig, 0) == keys_verdict(orig, entries@.len() as int),
            decreases orig.len() - entries@.len(),
        {
            let ghost j: int = entries@.len() as int;
            let (kb, value) = pairs.remove(0);
            proof {
                assert(orig.skip(j)[0] == orig[j]);
                assert(orig.skip(j).remove(0) =~= orig.skip(j + 1));
            }
            let key = match string_from_utf8(kb) {
                Ok(s) => s,
                Err(bb) => {
                    return Err(Error::BadBencodeString(bb));
                },
            };
            let mut i: usize = 0;
            while i < entries.len()
                invariant
                    orig == old(pairs)@,
                    i <= entries@.len(),
                    j == entries@.len(),
                    j < orig.len(),
                    valid_utf8(orig[j].0@),
                    key@ == decode_utf8(orig[j].0@),
                    keys_verdict(orig, 0) == keys_verdict(orig, j),
                    forall|i1: int|
                        0 <= i1 < j ==> valid_utf8(orig[i1].0@) && entries@[i1].0@ == decode_utf8(
                            orig[i1].0@,
                        ),
                    forall|i1: int| 0 <= i1 < i ==> entries@[i1].0@ != key@,
                decreases entries@.len() - i,
            {
                let hit = {
                    let e = &entries[i];
                    e.0.eq(&key)
                };
                if hit {
                    return Err(Error::DuplicatedKeyError(key));
                }
                i = i + 1;
            }
            entries.push((key, value));
        }
        Ok(Resp { entries })
    }

    /// The entries of this response, in wire order: each key with
    /// its raw decoded value.
    pub fn entries(&self) -> (r: &Vec<(String, Object)>)
        ensures
            r@ == self.spec_entries(),
    {
        &self.entries
    }

    /// How many entries this response carries.
    pub fn len(&self) -> (n: usize)
        ensures
            n == self.spec_entries().len(),
    {
        self.entries.len()
    }

    /// The value stored under `key`, if any.
    pub fn get(&self, key: &String) -> (r: Option<&Object>)
        ensures
            r matches Some(o) ==> exists|i: int|
                0 <= i < self.spec_entries().len() && self.spec_entries()[i].0@ == key@
                    && self.spec_entries()[i].1 == *o,
            r is None ==> !resp_has_key(*self, key@),
    {
        let mut i: usize = 0;
        while i < self.entries.len()
            invariant
                i <= self.spec_entries().len(),
                forall|i1: int| 0 <= i1 < i ==> self.spec_entries()[i1].0@ != key@,
            decreases self.spec_entries().len() - i,
        {
            let hit = {
                let e = &self.entries[i];
                e.0.eq(key)
            };
            if hit {
                return Some(&self.entries[i].1);
            }
            i = i + 1;
        }
        None
    }
}

/// Whether `resp` is the last message of its response sequence: the
/// server marks the final message with a `status` key.
pub fn is_final_resp(resp: &Resp) -> (r: bool)
    ensures
        r == resp_has_key(*resp, "status"@),
{
    let status: String = ("status").to_owned();
    let found = resp.get(&status);
    match found {
        Some(_) => true,
        None => false,
    }
}

} // verus!
