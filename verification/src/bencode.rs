//! Bencode values and their canonical byte encoding.
//!
//! A bencode value is a byte string (`<len>:<bytes>`), an integer
//! (`i<decimal>e`), a list (`l<items>e`) or a dict of byte-string keys
//! (`d<key value ...>e`).  The format is self-delimiting, so one value
//! can be cut off the front of a byte stream without any outer framing.

use vstd::prelude::*;

verus! {

/// Marker bytes of the bencode framing.
pub const TOK_INT: u8 = 105;

pub const TOK_LIST: u8 = 108;

pub const TOK_DICT: u8 = 100;

pub const TOK_END: u8 = 101;

pub const TOK_COLON: u8 = 58;

pub const TOK_MINUS: u8 = 45;

/// One decoded bencode value, as handed back by the decoder: byte
/// string, integer, list, or dict given as its key/value pairs in
/// wire order.
#[derive(Debug, PartialEq)]
pub enum Object {
    BBytes(Vec<u8>),
    BInt(i64),
    BList(Vec<Object>),
    BDict(Vec<(Vec<u8>, Object)>),
}

/// The mathematical shape of a bencode value, used by all contracts.
pub enum ObjV {
    Bytes(Seq<u8>),
    Int(int),
    List(Seq<ObjV>),
    Dict(Seq<(Seq<u8>, ObjV)>),
}

/// Abstraction of an [`Object`] into its mathematical shape.
pub open spec fn obj_v(o: Object) -> ObjV
    decreases o, 1int,
{
    match o {
        Object::BBytes(s) => ObjV::Bytes(s@),
        Object::BInt(i) => ObjV::Int(i as int),
        Object::BList(v) => ObjV::List(items_v(v, 0)),
        Object::BDict(ps) => ObjV::Dict(pairs_v(ps, 0)),
    }
}

/// Abstraction of the elements of `v` from index `i` on.
pub open spec fn items_v(v: Vec<Object>, i: int) -> Seq<ObjV>
    decreases v, v.len() - i,
{
    if i < 0 || i >= v.len() {
        Seq::empty()
    } else {
        seq![obj_v(v[i])] + items_v(v, i + 1)
    }
}

/// Abstraction of one key/value pair.
pub open spec fn pair_v(p: (Vec<u8>, Object)) -> (Seq<u8>, ObjV)
    decreases p, 1int,
{
    (p.0@, obj_v(p.1))
}

/// Abstraction of the pairs of `ps` from index `i` on.
pub open spec fn pairs_v(ps: Vec<(Vec<u8>, Object)>, i: int) -> Seq<(Seq<u8>, ObjV)>
    decreases ps, ps.len() - i,
{
    if i < 0 || i >= ps.len() {
        Seq::empty()
    } else {
        seq![pair_v(ps[i])] + pairs_v(ps, i + 1)
    }
}

/// Decimal digits of `n`, most significant first, no leading zeros.
pub open spec fn dec_digits(n: nat) -> Seq<u8>
    decreases n,
{
    if n < 10 {
        seq![(48 + n) as u8]
    } else {
        dec_digits(n / 10).push((48 + n % 10) as u8)
    }
}

/// Wire form of a byte string: decimal length, a colon, the bytes.
pub open spec fn enc_bstr(s: Seq<u8>) -> Seq<u8> {
    dec_digits(s.len()) + seq![TOK_COLON] + s
}

/// Wire form of the integer body between `i` and `e`.
pub open spec fn enc_int_body(i: int) -> Seq<u8> {
    if i < 0 {
        seq![TOK_MINUS] + dec_digits((-i) as nat)
    } else {
        dec_digits(i as nat)
    }
}

/// Wire form of a bencode value.
pub open spec fn enc_objv(o: ObjV) -> Seq<u8>
    decreases o, 1int,
{
    match o {
        ObjV::Bytes(s) => enc_bstr(s),
        ObjV::Int(i) => seq![TOK_INT] + enc_int_body(i) + seq![TOK_END],
        ObjV::List(items) => seq![TOK_LIST] + enc_items(items, 0) + seq![TOK_END],
        ObjV::Dict(ps) => seq![TOK_DICT] + enc_pairs(ps, 0) + seq![TOK_END],
    }
}

/// Wire form of the elements of `items` from index `i` on.
pub open spec fn enc_items(items: Seq<ObjV>, i: int) -> Seq<u8>
    decreases items, items.len() - i,
{
    if i < 0 || i >= items.len() {
        Seq::empty()
    } else {
        enc_objv(items[i]) + enc_items(items, i + 1)
    }
}

/// Wire form of one key/value pair.
pub open spec fn enc_pair(p: (Seq<u8>, ObjV)) -> Seq<u8>
    decreases p, 1int,
{
    enc_bstr(p.0) + enc_objv(p.1)
}

/// Wire form of the pairs of `ps` from index `i` on.
pub open spec fn enc_pairs(ps: Seq<(Seq<u8>, ObjV)>, i: int) -> Seq<u8>
    decreases ps, ps.len() - i,
{
    if i < 0 || i >= ps.len() {
        Seq::empty()
    } else {
        enc_pair(ps[i]) + enc_pairs(ps, i + 1)
    }
}

/// Byte-lexicographic order: `a` is no greater than `b`.
pub open spec fn bytes_le(a: Seq<u8>, b: Seq<u8>) -> bool
    decreases a.len(),
{
    if a.len() == 0 {
        true
    } else if b.len() == 0 {
        false
    } else if a[0] < b[0] {
        true
    } else if a[0] > b[0] {
        false
    } else {
        bytes_le(a.drop_first(), b.drop_first())
    }
}

/// Order on key/value pairs: by key, then by value.
pub open spec fn pair_le(p: (Seq<u8>, Seq<u8>), q: (Seq<u8>, Seq<u8>)) -> bool {
    if p.0 == q.0 {
        bytes_le(p.1, q.1)
    } else {
        bytes_le(p.0, q.0)
    }
}

/// `bytes_le` ignores a common prefix.
proof fn lemma_bytes_le_skip(a: Seq<u8>, b: Seq<u8>, i: int)
    requires
        0 <= i <= a.len(),
        i <= b.len(),
        forall|j: int| 0 <= j < i ==> a[j] == b[j],
    ensures
        bytes_le(a, b) == bytes_le(a.skip(i), b.skip(i)),
    decreases i,
{
    if i > 0 {
        lemma_bytes_le_skip(a.drop_first(), b.drop_first(), i - 1);
        assert(a.drop_first().skip(i - 1) =~= a.skip(i));
        assert(b.drop_first().skip(i - 1) =~= b.skip(i));
    } else {
        assert(a.skip(0) =~= a);
        assert(b.skip(0) =~= b);
    }
}

/// Exact equality test on byte vectors.
pub fn bytes_eq(a: &Vec<u8>, b: &Vec<u8>) -> (r: bool)
    ensures
        r == (a@ == b@),
{
    if a.len() != b.len() {
        return false;
    }
    let mut i: usize = 0;
    while i < a.len()
        invariant
            i <= a.len(),
            a@.len() == b@.len(),
            forall|j: int| 0 <= j < i ==> a@[j] == b@[j],
        decreases a.len() - i,
    {
        if a[i] != b[i] {
            return false;
        }
        i = i + 1;
    }
    proof {
        assert(a@ =~= b@);
    }
    true
}

/// Byte-lexicographic comparison, deciding [`bytes_le`].
pub fn bytes_le_exec(a: &Vec<u8>, b: &Vec<u8>) -> (r: bool)
    ensures
        r == bytes_le(a@, b@),
{
    let mut i: usize = 0;
    loop
        invariant
            i <= a.len(),
            i <= b.len(),
            forall|j: int| 0 <= j < i ==> a@[j] == b@[j],
        decreases a.len() - i,
    {
        proof {
            lemma_bytes_le_skip(a@, b@, i as int);
        }
        if i >= a.len() {
            return true;
        }
        if i >= b.len() {
            return false;
        }
        if a[i] < b[i] {
            return true;
        }
        if a[i] > b[i] {
            return false;
        }
        i = i + 1;
    }
}

/// View of an owned key/value byte pair.
pub open spec fn pv(p: (Vec<u8>, Vec<u8>)) -> (Seq<u8>, Seq<u8>) {
    (p.0@, p.1@)
}

/// Views of the pairs of `s` from index `i` on.
pub open spec fn bpairs_v(s: Seq<(Vec<u8>, Vec<u8>)>, i: int) -> Seq<(Seq<u8>, Seq<u8>)>
    decreases s.len() - i,
{
    if i < 0 || i >= s.len() {
        Seq::empty()
    } else {
        seq![pv(s[i])] + bpairs_v(s, i + 1)
    }
}

/// Length and elements of [`bpairs_v`].
pub proof fn lemma_bpairs_v(s: Seq<(Vec<u8>, Vec<u8>)>, i: int)
    requires
        0 <= i <= s.len(),
    ensures
        bpairs_v(s, i).len() == s.len() - i,
        forall|j: int| i <= j < s.len() ==> bpairs_v(s, i)[j - i] == pv(s[j]),
    decreases s.len() - i,
{
    if i < s.len() {
        lemma_bpairs_v(s, i + 1);
    }
}

/// Length and elements of [`bpairs_v`] taken from the start.
pub proof fn lemma_bpairs_v_all(s: Seq<(Vec<u8>, Vec<u8>)>)
    ensures
        bpairs_v(s, 0).len() == s.len(),
        forall|j: int| 0 <= j < s.len() ==> bpairs_v(s, 0)[j] == pv(s[j]),
{
    lemma_bpairs_v(s, 0);
    assert forall|j: int| 0 <= j < s.len() implies bpairs_v(s, 0)[j] == pv(s[j]) by {
        lemma_bpairs_v(s, 0);
        assert(bpairs_v(s, 0)[j - 0] == pv(s[j]));
    }
}

/// Ordered insertion of `p` into `s`.
pub open spec fn insert_le(s: Seq<(Seq<u8>, Seq<u8>)>, p: (Seq<u8>, Seq<u8>)) -> Seq<
    (Seq<u8>, Seq<u8>),
>
    decreases s.len(),
{
    if s.len() == 0 {
        seq![p]
    } else if pair_le(p, s[0]) {
        seq![p] + s
    } else {
        seq![s[0]] + insert_le(s.drop_first(), p)
    }
}

/// Insertion sort, folding the elements of `rest` into `acc`.
pub open spec fn sort_from(acc: Seq<(Seq<u8>, Seq<u8>)>, rest: Seq<(Seq<u8>, Seq<u8>)>) -> Seq<
    (Seq<u8>, Seq<u8>),
>
    decreases rest.len(),
{
    if rest.len() == 0 {
        acc
    } else {
        sort_from(insert_le(acc, rest[0]), rest.drop_first())
    }
}

/// The pairs of `s`, sorted by key and then value.
pub open spec fn sort_pairs(s: Seq<(Seq<u8>, Seq<u8>)>) -> Seq<(Seq<u8>, Seq<u8>)> {
    sort_from(Seq::empty(), s)
}

/// Where `p` sits after ordered insertion at position `k`.
proof fn lemma_insert_le_at(s: Seq<(Seq<u8>, Seq<u8>)>, p: (Seq<u8>, Seq<u8>), k: int)
    requires
        0 <= k <= s.len(),
        forall|j: int| 0 <= j < k ==> !pair_le(p, s[j]),
        k < s.len() ==> pair_le(p, s[k]),
    ensures
        insert_le(s, p) == s.take(k) + seq![p] + s.skip(k),
    decreases k,
{
    if k == 0 {
        if s.len() == 0 {
            assert(insert_le(s, p) =~= s.take(0) + seq![p] + s.skip(0));
        } else {
            assert(insert_le(s, p) =~= s.take(0) + seq![p] + s.skip(0));
        }
    } else {
        lemma_insert_le_at(s.drop_first(), p, k - 1);
        assert(insert_le(s, p) == seq![s[0]] + insert_le(s.drop_first(), p));
        assert(seq![s[0]] + (s.drop_first().take(k - 1) + seq![p] + s.drop_first().skip(k - 1))
            =~= s.take(k) + seq![p] + s.skip(k));
    }
}

/// Ordered insertion of an owned pair into a sorted vector.
pub fn insert_pair(v: &mut Vec<(Vec<u8>, Vec<u8>)>, p: (Vec<u8>, Vec<u8>))
    ensures
        bpairs_v(final(v)@, 0) == insert_le(bpairs_v(old(v)@, 0), pv(p)),
{
    let ghost s0 = bpairs_v(v@, 0);
    proof {
        lemma_bpairs_v_all(v@);
    }
    let mut k: usize = 0;
    loop
        invariant
            k <= v.len(),
            v@ == old(v)@,
            s0 == bpairs_v(v@, 0),
            s0.len() == v@.len(),
            forall|j: int| 0 <= j < v@.len() ==> s0[j] == pv(v@[j]),
            forall|j: int| 0 <= j < k ==> !pair_le(pv(p), s0[j]),
        ensures
            k <= v.len(),
            v@ == old(v)@,
            forall|j: int| 0 <= j < k ==> !pair_le(pv(p), s0[j]),
            k < v.len() ==> pair_le(pv(p), s0[k as int]),
        decreases v.len() - k,
    {
        if k >= v.len() {
            break;
        }
        let le = {
            let q = &v[k];
            if bytes_eq(&p.0, &q.0) {
                bytes_le_exec(&p.1, &q.1)
            } else {
                bytes_le_exec(&p.0, &q.0)
            }
        };
        if le {
            break;
        }
        k = k + 1;
    }
    proof {
        lemma_insert_le_at(s0, pv(p), k as int);
    }
    let ghost pview = pv(p);
    v.insert(k, p);
    proof {
        lemma_bpairs_v_all(old(v)@);
        lemma_bpairs_v_all(v@);
        assert(bpairs_v(v@, 0) =~= s0.take(k as int) + seq![pview] + s0.skip(k as int));
    }
}

/// String-dict shape: each byte-pair becomes a key and a byte-string value.
pub open spec fn str_pairs_v(ps: Seq<(Seq<u8>, Seq<u8>)>, i: int) -> Seq<(Seq<u8>, ObjV)>
    decreases ps.len() - i,
{
    if i < 0 || i >= ps.len() {
        Seq::empty()
    } else {
        seq![(ps[i].0, ObjV::Bytes(ps[i].1))] + str_pairs_v(ps, i + 1)
    }
}

/// A dict whose values are all byte strings, given by its pairs.
pub open spec fn strdict_v(ps: Seq<(Seq<u8>, Seq<u8>)>) -> ObjV {
    ObjV::Dict(str_pairs_v(ps, 0))
}

/// Length and elements of [`str_pairs_v`] taken from the start.
pub proof fn lemma_str_pairs_v_all(ps: Seq<(Seq<u8>, Seq<u8>)>)
    ensures
        str_pairs_v(ps, 0).len() == ps.len(),
        forall|j: int|
            0 <= j < ps.len() ==> str_pairs_v(ps, 0)[j] == (ps[j].0, ObjV::Bytes(ps[j].1)),
    decreases ps.len(),
{
    lemma_str_pairs_v(ps, 0);
    assert forall|j: int| 0 <= j < ps.len() implies str_pairs_v(ps, 0)[j] == (
    ps[j].0,
    ObjV::Bytes(ps[j].1),
    ) by {
        lemma_str_pairs_v(ps, 0);
        assert(str_pairs_v(ps, 0)[j - 0] == (ps[j].0, ObjV::Bytes(ps[j].1)));
    }
}

proof fn lemma_str_pairs_v(ps: Seq<(Seq<u8>, Seq<u8>)>, i: int)
    requires
        0 <= i <= ps.len(),
    ensures
        str_pairs_v(ps, i).len() == ps.len() - i,
        forall|j: int|
            i <= j < ps.len() ==> str_pairs_v(ps, i)[j - i] == (ps[j].0, ObjV::Bytes(ps[j].1)),
    decreases ps.len() - i,
{
    if i < ps.len() {
        lemma_str_pairs_v(ps, i + 1);
    }
}

/// Appends the decimal digits of `n` to `out`.
pub fn push_dec(out: &mut Vec<u8>, n: usize)
    ensures
        final(out)@ == old(out)@ + dec_digits(n as nat),
    decreases n,
{
    if n < 10 {
        out.push(48 + (n as u8));
        proof {
            assert(out@ =~= old(out)@ + dec_digits(n as nat));
        }
    } else {
        push_dec(out, n / 10);
        out.push(48 + ((n % 10) as u8));
        proof {
            assert(out@ =~= old(out)@ + dec_digits(n as nat));
        }
    }
}

/// Appends the wire form of the byte string `s` to `out`.
pub fn push_bstr(out: &mut Vec<u8>, s: &Vec<u8>)
    ensures
        final(out)@ == old(out)@ + enc_bstr(s@),
{
    push_dec(out, s.len());
    out.push(TOK_COLON);
    let ghost base = out@;
    let mut j: usize = 0;
    while j < s.len()
        invariant
            j <= s.len(),
            out@ == base + s@.take(j as int),
        decreases s.len() - j,
    {
        out.push(s[j]);
        proof {
            assert(out@ =~= base + s@.take(j as int + 1));
        }
        j = j + 1;
    }
    proof {
        assert(s@.take(s@.len() as int) =~= s@);
        assert(out@ =~= old(out)@ + enc_bstr(s@));
    }
}

/// Outcome of parsing one construct from the front of a byte
/// sequence: a result with the count of bytes consumed, a request for
/// more bytes, or a definite encoding error.
pub enum Parsed<T> {
    Found(T, int),
    More,
    Bad,
}

/// Whether `b` is an ASCII decimal digit.
pub open spec fn is_digit(b: u8) -> bool {
    48 <= b <= 57
}

/// Whether every byte of `d` is a decimal digit.
pub open spec fn all_digits(d: Seq<u8>) -> bool {
    forall|j: int| 0 <= j < d.len() ==> is_digit(d[j])
}

/// The longest digit prefix of `b`.
pub open spec fn digits_run(b: Seq<u8>) -> Seq<u8>
    decreases b.len(),
{
    if b.len() > 0 && is_digit(b[0]) {
        seq![b[0]] + digits_run(b.drop_first())
    } else {
        Seq::empty()
    }
}

/// Numeric value of a digit sequence, most significant digit first.
pub open spec fn dec_val(d: Seq<u8>) -> int
    decreases d.len(),
{
    if d.len() == 0 {
        0
    } else {
        dec_val(d.drop_last()) * 10 + (d.last() - 48)
    }
}

/// The digit run is the maximal digit prefix.
pub proof fn lemma_digits_run_char(s: Seq<u8>, k: int)
    requires
        0 <= k <= s.len(),
        forall|j: int| 0 <= j < k ==> is_digit(s[j]),
        k < s.len() ==> !is_digit(s[k]),
    ensures
        digits_run(s) == s.take(k),
    decreases k,
{
    if k == 0 {
        assert(digits_run(s) =~= s.take(0));
    } else {
        lemma_digits_run_char(s.drop_first(), k - 1);
        assert(s.drop_first().take(k - 1) =~= s.take(k).drop_first());
        assert(digits_run(s) =~= s.take(k));
    }
}

/// Digit sequences have nonnegative value, no larger for a prefix.
pub proof fn lemma_dec_val_prefix(d: Seq<u8>, k: int)
    requires
        all_digits(d),
        0 <= k <= d.len(),
    ensures
        dec_val(d) >= 0,
        dec_val(d.take(k)) <= dec_val(d),
    decreases d.len(),
{
    if d.len() == 0 {
        assert(d.take(k) =~= d);
    } else {
        assert(all_digits(d.drop_last()));
        lemma_dec_val_prefix(d.drop_last(), if k <= d.len() - 1 {
            k
        } else {
            d.len() - 1
        });
        if k <= d.len() - 1 {
            assert(d.drop_last().take(k) =~= d.take(k));
        } else {
            assert(d.take(k) =~= d);
        }
    }
}

/// One decoded bencode byte string: its bytes and its width on the
/// wire, expected at the very front of `b`.
pub open spec fn sp_bstr(b: Seq<u8>) -> Parsed<Seq<u8>> {
    let d = digits_run(b);
    if d.len() == 0 {
        if b.len() == 0 {
            Parsed::More
        } else {
            Parsed::Bad
        }
    } else if d.len() >= b.len() {
        Parsed::More
    } else if b[d.len() as int] != TOK_COLON {
        Parsed::Bad
    } else {
        let n = dec_val(d);
        if b.len() - d.len() - 1 < n {
            Parsed::More
        } else {
            Parsed::Found(b.subrange(d.len() as int + 1, d.len() as int + 1 + n), d.len() + 1 + n)
        }
    }
}

/// One decoded integer body (after the leading `i`), up to and
/// including the closing `e`.
pub open spec fn sp_int(b: Seq<u8>) -> Parsed<int> {
    let neg = b.len() > 0 && b[0] == TOK_MINUS;
    let b2 = if neg {
        b.drop_first()
    } else {
        b
    };
    let d = digits_run(b2);
    if d.len() == 0 {
        if b2.len() == 0 {
            Parsed::More
        } else {
            Parsed::Bad
        }
    } else if d.len() >= b2.len() {
        Parsed::More
    } else if b2[d.len() as int] != TOK_END {
        Parsed::Bad
    } else {
        let v = if neg {
            -dec_val(d)
        } else {
            dec_val(d)
        };
        if v < i64::MIN as int || v > i64::MAX as int {
            Parsed::Bad
        } else {
            Parsed::Found(v, (if neg {
                1int
            } else {
                0int
            }) + d.len() + 1)
        }
    }
}

/// One decoded bencode value at the very front of `b`.
pub open spec fn sp_value(b: Seq<u8>) -> Parsed<ObjV>
    decreases b.len(), 0int,
{
    if b.len() == 0 {
        Parsed::More
    } else if is_digit(b[0]) {
        match sp_bstr(b) {
            Parsed::Found(s, n) => Parsed::Found(ObjV::Bytes(s), n),
            Parsed::More => Parsed::More,
            Parsed::Bad => Parsed::Bad,
        }
    } else if b[0] == TOK_INT {
        match sp_int(b.drop_first()) {
            Parsed::Found(v, n) => Parsed::Found(ObjV::Int(v), n + 1),
            Parsed::More => Parsed::More,
            Parsed::Bad => Parsed::Bad,
        }
    } else if b[0] == TOK_LIST {
        match sp_list(b.drop_first()) {
            Parsed::Found(items, n) => Parsed::Found(ObjV::List(items), n + 1),
            Parsed::More => Parsed::More,
            Parsed::Bad => Parsed::Bad,
        }
    } else if b[0] == TOK_DICT {
        match sp_dict(b.drop_first()) {
            Parsed::Found(ps, n) => Parsed::Found(ObjV::Dict(ps), n + 1),
            Parsed::More => Parsed::More,
            Parsed::Bad => Parsed::Bad,
        }
    } else {
        Parsed::Bad
    }
}

/// The elements of a list body, up to and including the closing `e`.
pub open spec fn sp_list(b: Seq<u8>) -> Parsed<Seq<ObjV>>
    decreases b.len(), 2int,
{
    if b.len() == 0 {
        Parsed::More
    } else if b[0] == TOK_END {
        Parsed::Found(Seq::empty(), 1)
    } else {
        match sp_value(b) {
            Parsed::Found(o, n) => if 1 <= n && n <= b.len() {
                match sp_list(b.skip(n)) {
                    Parsed::Found(rest, m) => Parsed::Found(seq![o] + rest, n + m),
                    Parsed::More => Parsed::More,
                    Parsed::Bad => Parsed::Bad,
                }
            } else {
                Parsed::Bad
            },
            Parsed::More => Parsed::More,
            Parsed::Bad => Parsed::Bad,
        }
    }
}

/// The pairs of a dict body, up to and including the closing `e`.
/// Keys must be byte strings; values are any value.
pub open spec fn sp_dict(b: Seq<u8>) -> Parsed<Seq<(Seq<u8>, ObjV)>>
    decreases b.len(), 2int,
{
    if b.len() == 0 {
        Parsed::More
    } else if b[0] == TOK_END {
        Parsed::Found(Seq::empty(), 1)
    } else {
        match sp_bstr(b) {
            Parsed::Found(k, n) => if 1 <= n && n <= b.len() {
                match sp_value(b.skip(n)) {
                    Parsed::Found(v, m) => if 1 <= m && n + m <= b.len() {
                        match sp_dict(b.skip(n + m)) {
                            Parsed::Found(ps, t) => Parsed::Found(seq![(k, v)] + ps, n + m + t),
                            Parsed::More => Parsed::More,
                            Parsed::Bad => Parsed::Bad,
                        }
                    } else {
                        Parsed::Bad
                    },
                    Parsed::More => Parsed::More,
                    Parsed::Bad => Parsed::Bad,
                }
            } else {
                Parsed::Bad
            },
            Parsed::More => Parsed::More,
            Parsed::Bad => Parsed::Bad,
        }
    }
}

/// Length and elements of [`items_v`] taken from the start.
pub proof fn lemma_items_v_all(v: Vec<Object>)
    ensures
        items_v(v, 0).len() == v.len(),
        forall|j: int| 0 <= j < v.len() ==> items_v(v, 0)[j] == obj_v(v[j]),
{
    lemma_items_v_from(v, 0);
    assert forall|j: int| 0 <= j < v.len() implies items_v(v, 0)[j] == obj_v(v[j]) by {
        lemma_items_v_from(v, 0);
        assert(items_v(v, 0)[j - 0] == obj_v(v[j]));
    }
}

proof fn lemma_items_v_from(v: Vec<Object>, i: int)
    requires
        0 <= i <= v.len(),
    ensures
        items_v(v, i).len() == v.len() - i,
        forall|j: int| i <= j < v.len() ==> items_v(v, i)[j - i] == obj_v(v[j]),
    decreases v.len() - i,
{
    if i < v.len() {
        lemma_items_v_from(v, i + 1);
    }
}

/// Length and elements of [`pairs_v`] taken from the start.
pub proof fn lemma_pairs_v_all(ps: Vec<(Vec<u8>, Object)>)
    ensures
        pairs_v(ps, 0).len() == ps.len(),
        forall|j: int| 0 <= j < ps.len() ==> pairs_v(ps, 0)[j] == pair_v(ps[j]),
{
    lemma_pairs_v_from(ps, 0);
    assert forall|j: int| 0 <= j < ps.len() implies pairs_v(ps, 0)[j] == pair_v(ps[j]) by {
        lemma_pairs_v_from(ps, 0);
        assert(pairs_v(ps, 0)[j - 0] == pair_v(ps[j]));
    }
}

proof fn lemma_pairs_v_from(ps: Vec<(Vec<u8>, Object)>, i: int)
    requires
        0 <= i <= ps.len(),
    ensures
        pairs_v(ps, i).len() == ps.len() - i,
        forall|j: int| i <= j < ps.len() ==> pairs_v(ps, i)[j - i] == pair_v(ps[j]),
    decreases ps.len() - i,
{
    if i < ps.len() {
        lemma_pairs_v_from(ps, i + 1);
    }
}

/// What the decoder reports when it cannot hand back a value: the
/// input stops mid-value, or it breaks the encoding.
#[derive(Debug, PartialEq)]
pub enum ParseErr {
    Incomplete,
    Malformed,
}

/// Index just past the digit run that starts at `pos`.
fn scan_digits(buf: &Vec<u8>, pos: usize) -> (e: usize)
    requires
        pos <= buf.len(),
    ensures
        pos <= e <= buf@.len(),
        digits_run(buf@.skip(pos as int)) == buf@.subrange(pos as int, e as int),
        forall|j: int| pos <= j < e ==> is_digit(buf@[j]),
{
    let mut e: usize = pos;
    while e < buf.len() && 48 <= buf[e] && buf[e] <= 57
        invariant
            pos <= e <= buf@.len(),
            forall|j: int| pos <= j < e ==> is_digit(buf@[j]),
        decreases buf@.len() - e,
    {
        e = e + 1;
    }
    proof {
        lemma_digits_run_char(buf@.skip(pos as int), e - pos);
        assert(buf@.skip(pos as int).take(e - pos) =~= buf@.subrange(pos as int, e as int));
    }
    e
}

/// Value of the digits in `buf[s..e)`, unless it exceeds `cap`.
fn dec_value_capped(buf: &Vec<u8>, s: usize, e: usize, cap: u64) -> (r: Option<u64>)
    requires
        s <= e <= buf.len(),
        forall|j: int| s <= j < e ==> is_digit(buf@[j]),
    ensures
        r matches Some(v) ==> v as int == dec_val(buf@.subrange(s as int, e as int)) && v <= cap,
        r is None ==> dec_val(buf@.subrange(s as int, e as int)) > cap,
{
    let ghost full = buf@.subrange(s as int, e as int);
    let mut acc: u64 = 0;
    let mut j: usize = s;
    while j < e
        invariant
            s <= j <= e <= buf@.len(),
            full == buf@.subrange(s as int, e as int),
            forall|jj: int| s <= jj < e ==> is_digit(buf@[jj]),
            acc as int == dec_val(buf@.subrange(s as int, j as int)),
            acc <= cap,
        decreases e - j,
    {
        let d8 = buf[j] - 48;
        let d = d8 as u64;
        proof {
            assert(buf@.subrange(s as int, j as int + 1).drop_last() =~= buf@.subrange(
                s as int,
                j as int,
            ));
            assert(dec_val(buf@.subrange(s as int, j as int + 1)) == acc as int * 10 + d);
        }
        if acc > cap / 10 || (acc == cap / 10 && d > cap % 10) {
            proof {
                assert(acc as int * 10 + d > cap) by {
                    assert(cap == (cap / 10) * 10 + cap % 10);
                };
                assert(all_digits(full));
                lemma_dec_val_prefix(full, j as int + 1 - s);
                assert(full.take(j as int + 1 - s) =~= buf@.subrange(s as int, j as int + 1));
            }
            return None;
        }
        proof {
            assert(acc * 10 + d <= cap) by {
                assert(cap == (cap / 10) * 10 + cap % 10);
            };
        }
        acc = acc * 10 + d;
        j = j + 1;
    }
    Some(acc)
}

/// The bytes of `buf[s..e)`, copied out.
fn copy_range(buf: &Vec<u8>, s: usize, e: usize) -> (r: Vec<u8>)
    requires
        s <= e <= buf.len(),
    ensures
        r@ == buf@.subrange(s as int, e as int),
{
    let mut r: Vec<u8> = Vec::new();
    let mut j: usize = s;
    while j < e
        invariant
            s <= j <= e <= buf@.len(),
            r@ == buf@.subrange(s as int, j as int),
        decreases e - j,
    {
        r.push(buf[j]);
        proof {
            assert(r@ =~= buf@.subrange(s as int, j as int + 1));
        }
        j = j + 1;
    }
    r
}

/// Decodes one byte string starting at `pos`, as [`sp_bstr`] reads
/// the remaining bytes.
fn parse_bstr(buf: &Vec<u8>, pos: usize) -> (r: Result<(Vec<u8>, usize), ParseErr>)
    requires
        pos <= buf.len(),
    ensures
        r matches Ok(p) ==> pos < p.1 <= buf@.len() && sp_bstr(buf@.skip(pos as int))
            == Parsed::Found(p.0@, p.1 - pos as int),
        r matches Err(ParseErr::Incomplete) ==> sp_bstr(buf@.skip(pos as int)) is More,
        r matches Err(ParseErr::Malformed) ==> sp_bstr(buf@.skip(pos as int)) is Bad,
{
    let ghost b = buf@.skip(pos as int);
    let e = scan_digits(buf, pos);
    let ghost d = digits_run(b);
    proof {
        assert(d.len() == e - pos);
        assert(forall|x: int| 0 <= x < b.len() ==> b[x] == buf@[pos + x]);
    }
    if e == pos {
        if pos == buf.len() {
            return Err(ParseErr::Incomplete);
        } else {
            return Err(ParseErr::Malformed);
        }
    }
    if e == buf.len() {
        return Err(ParseErr::Incomplete);
    }
    if buf[e] != TOK_COLON {
        proof {
            assert(b[d.len() as int] == buf@[e as int]);
        }
        return Err(ParseErr::Malformed);
    }
    proof {
        assert(b[d.len() as int] == buf@[e as int]);
    }
    let remaining = buf.len() - e - 1;
    proof {
        assert(all_digits(d));
    }
    match dec_value_capped(buf, pos, e, remaining as u64) {
        None => {
            return Err(ParseErr::Incomplete);
        },
        Some(v) => {
            let n = v as usize;
            let start = e + 1;
            let data = copy_range(buf, start, start + n);
            proof {
                assert(b.subrange(d.len() as int + 1, d.len() as int + 1 + n) =~= buf@.subrange(
                    start as int,
                    start as int + n,
                ));
            }
            Ok((data, start + n))
        },
    }
}

/// Decodes one integer body (after the `i`) starting at `pos`, as
/// [`sp_int`] reads the remaining bytes.
fn parse_int_body(buf: &Vec<u8>, pos: usize) -> (r: Result<(i64, usize), ParseErr>)
    requires
        pos <= buf.len(),
    ensures
        r matches Ok(p) ==> pos < p.1 <= buf@.len() && sp_int(buf@.skip(pos as int))
            == Parsed::Found(p.0 as int, p.1 - pos as int),
        r matches Err(ParseErr::Incomplete) ==> sp_int(buf@.skip(pos as int)) is More,
        r matches Err(ParseErr::Malformed) ==> sp_int(buf@.skip(pos as int)) is Bad,
{
    let ghost b = buf@.skip(pos as int);
    let neg = pos < buf.len() && buf[pos] == TOK_MINUS;
    let p2 = if neg {
        pos + 1
    } else {
        pos
    };
    let ghost b2 = buf@.skip(p2 as int);
    proof {
        if neg {
            assert(b.drop_first() =~= b2);
        }
        assert(forall|x: int| 0 <= x < b2.len() ==> b2[x] == buf@[p2 + x]);
    }
    let e = scan_digits(buf, p2);
    let ghost d = digits_run(b2);
    proof {
        assert(d.len() == e - p2);
    }
    if e == p2 {
        if p2 == buf.len() {
            return Err(ParseErr::Incomplete);
        } else {
            return Err(ParseErr::Malformed);
        }
    }
    if e == buf.len() {
        return Err(ParseErr::Incomplete);
    }
    if buf[e] != TOK_END {
        proof {
            assert(b2[d.len() as int] == buf@[e as int]);
        }
        return Err(ParseErr::Malformed);
    }
    proof {
        assert(b2[d.len() as int] == buf@[e as int]);
        assert(all_digits(d));
    }
    let cap: u64 = if neg {
        9223372036854775808u64
    } else {
        9223372036854775807u64
    };
    match dec_value_capped(buf, p2, e, cap) {
        None => {
            return Err(ParseErr::Malformed);
        },
        Some(v) => {
            let value: i64 = if neg {
                if v == 9223372036854775808u64 {
                    i64::MIN
                } else {
                    -(v as i64)
                }
            } else {
                v as i64
            };
            Ok((value, e + 1))
        },
    }
}

/// Decodes one bencode value starting at `pos`, exactly as
/// [`sp_value`] reads the remaining bytes: `Ok` hands back the value
/// and the index just past it, `Incomplete` asks for more input, and
/// `Malformed` rejects the encoding.
pub fn parse_value(buf: &Vec<u8>, pos: usize) -> (r: Result<(Object, usize), ParseErr>)
    requires
        pos <= buf.len(),
    ensures
        r matches Ok(p) ==> pos < p.1 <= buf@.len() && sp_value(buf@.skip(pos as int))
            == Parsed::Found(obj_v(p.0), p.1 - pos as int),
        r matches Err(ParseErr::Incomplete) ==> sp_value(buf@.skip(pos as int)) is More,
        r matches Err(ParseErr::Malformed) ==> sp_value(buf@.skip(pos as int)) is Bad,
    decreases buf.len() - pos, 0int,
{
    if pos == buf.len() {
        return Err(ParseErr::Incomplete);
    }
    let c = buf[pos];
    if 48 <= c && c <= 57 {
        match parse_bstr(buf, pos) {
            Ok((data, end)) => Ok((Object::BBytes(data), end)),
            Err(err) => Err(err),
        }
    } else if c == TOK_INT {
        proof {
            assert(buf@.skip(pos as int).drop_first() =~= buf@.skip(pos as int + 1));
        }
        match parse_int_body(buf, pos + 1) {
            Ok((v, end)) => Ok((Object::BInt(v), end)),
            Err(err) => Err(err),
        }
    } else if c == TOK_LIST {
        proof {
            assert(buf@.skip(pos as int).drop_first() =~= buf@.skip(pos as int + 1));
        }
        match parse_list(buf, pos + 1) {
            Ok((items, end)) => Ok((Object::BList(items), end)),
            Err(err) => Err(err),
        }
    } else if c == TOK_DICT {
        proof {
            assert(buf@.skip(pos as int).drop_first() =~= buf@.skip(pos as int + 1));
        }
        match parse_dict(buf, pos + 1) {
            Ok((ps, end)) => Ok((Object::BDict(ps), end)),
            Err(err) => Err(err),
        }
    } else {
        Err(ParseErr::Malformed)
    }
}

/// Decodes a list body up to its closing `e`, as [`sp_list`] reads
/// the remaining bytes.
fn parse_list(buf: &Vec<u8>, pos: usize) -> (r: Result<(Vec<Object>, usize), ParseErr>)
    requires
        pos <= buf.len(),
    ensures
        r matches Ok(p) ==> pos < p.1 <= buf@.len() && sp_list(buf@.skip(pos as int))
            == Parsed::Found(items_v(p.0, 0), p.1 - pos as int),
        r matches Err(ParseErr::Incomplete) ==> sp_list(buf@.skip(pos as int)) is More,
        r matches Err(ParseErr::Malformed) ==> sp_list(buf@.skip(pos as int)) is Bad,
    decreases buf.len() - pos, 1int,
{
    if pos == buf.len() {
        return Err(ParseErr::Incomplete);
    }
    if buf[pos] == TOK_END {
        let empty: Vec<Object> = Vec::new();
        return Ok((empty, pos + 1));
    }
    match parse_value(buf, pos) {
        Ok((o, end)) => {
            proof {
                assert(buf@.skip(pos as int).skip(end - pos) =~= buf@.skip(end as int));
            }
            match parse_list(buf, end) {
                Ok((items, end2)) => {
                    let ghost tail = items;
                    let mut items = items;
                    items.insert(0, o);
                    proof {
                        lemma_items_v_all(tail);
                        lemma_items_v_all(items);
                        assert(items_v(items, 0) =~= seq![obj_v(o)] + items_v(tail, 0));
                    }
                    Ok((items, end2))
                },
                Err(err) => Err(err),
            }
        },
        Err(err) => Err(err),
    }
}

/// Decodes a dict body up to its closing `e`, as [`sp_dict`] reads
/// the remaining bytes.
fn parse_dict(buf: &Vec<u8>, pos: usize) -> (r: Result<(Vec<(Vec<u8>, Object)>, usize), ParseErr>)
    requires
        pos <= buf.len(),
    ensures
        r matches Ok(p) ==> pos < p.1 <= buf@.len() && sp_dict(buf@.skip(pos as int))
            == Parsed::Found(pairs_v(p.0, 0), p.1 - pos as int),
        r matches Err(ParseErr::Incomplete) ==> sp_dict(buf@.skip(pos as int)) is More,
        r matches Err(ParseErr::Malformed) ==> sp_dict(buf@.skip(pos as int)) is Bad,
    decreases buf.len() - pos, 1int,
{
    if pos == buf.len() {
        return Err(ParseErr::Incomplete);
    }
    if buf[pos] == TOK_END {
        let empty: Vec<(Vec<u8>, Object)> = Vec::new();
        return Ok((empty, pos + 1));
    }
    match parse_bstr(buf, pos) {
        Ok((kb, end)) => {
            proof {
                assert(buf@.skip(pos as int).skip(end - pos) =~= buf@.skip(end as int));
            }
            match parse_value(buf, end) {
                Ok((vo, end2)) => {
                    proof {
                        assert(buf@.skip(pos as int).skip(end2 - pos) =~= buf@.skip(end2 as int));
                    }
                    match parse_dict(buf, end2) {
                        Ok((ps, end3)) => {
                            let ghost tail = ps;
                            let ghost kbv = kb@;
                            let ghost vov = obj_v(vo);
                            let mut ps = ps;
                            ps.insert(0, (kb, vo));
                            proof {
                                lemma_pairs_v_all(tail);
                                lemma_pairs_v_all(ps);
                                assert(pairs_v(ps, 0) =~= seq![(kbv, vov)] + pairs_v(tail, 0));
                            }
                            Ok((ps, end3))
                        },
                        Err(err) => Err(err),
                    }
                },
                Err(err) => Err(err),
            }
        },
        Err(err) => Err(err),
    }
}

/// [`bytes_le`] holds one way or the other of any two byte strings.
pub proof fn lemma_bytes_le_total(a: Seq<u8>, b: Seq<u8>)
    ensures
        bytes_le(a, b) || bytes_le(b, a),
    decreases a.len(),
{
    if a.len() > 0 && b.len() > 0 && a[0] == b[0] {
        lemma_bytes_le_total(a.drop_first(), b.drop_first());
    }
}

/// [`bytes_le`] both ways forces equality.
pub proof fn lemma_bytes_le_antisym(a: Seq<u8>, b: Seq<u8>)
    requires
        bytes_le(a, b),
        bytes_le(b, a),
    ensures
        a == b,
    decreases a.len(),
{
    if a.len() == 0 {
        if b.len() > 0 {
            assert(!bytes_le(b, a));
        }
        assert(a =~= b);
    } else {
        lemma_bytes_le_antisym(a.drop_first(), b.drop_first());
        assert(a[0] == b[0]);
        assert(a =~= seq![a[0]] + a.drop_first());
        assert(b =~= seq![b[0]] + b.drop_first());
        assert(a == seq![a[0]] + a.drop_first());
    }
}

/// [`bytes_le`] is transitive.
pub proof fn lemma_bytes_le_trans(a: Seq<u8>, b: Seq<u8>, c: Seq<u8>)
    requires
        bytes_le(a, b),
        bytes_le(b, c),
    ensures
        bytes_le(a, c),
    decreases a.len(),
{
    if a.len() > 0 && b.len() > 0 && c.len() > 0 && a[0] == b[0] && b[0] == c[0] {
        lemma_bytes_le_trans(a.drop_first(), b.drop_first(), c.drop_first());
    }
}

/// The pair order as a first-class relation, for the sorting lemmas.
pub open spec fn pair_le_fn() -> spec_fn((Seq<u8>, Seq<u8>), (Seq<u8>, Seq<u8>)) -> bool {
    |p: (Seq<u8>, Seq<u8>), q: (Seq<u8>, Seq<u8>)| pair_le(p, q)
}

/// The pair order is a total order.
pub proof fn lemma_pair_le_total_ordering()
    ensures
        vstd::relations::total_ordering(pair_le_fn()),
{
    let r = pair_le_fn();
    assert forall|x: (Seq<u8>, Seq<u8>)| #[trigger] r(x, x) by {
        lemma_bytes_le_total(x.1, x.1);
    }
    assert forall|x: (Seq<u8>, Seq<u8>), y: (Seq<u8>, Seq<u8>)| #[trigger] r(x, y) && #[trigger] r(
        y,
        x,
    ) implies x == y by {
        if x.0 == y.0 {
            lemma_bytes_le_antisym(x.1, y.1);
        } else {
            lemma_bytes_le_antisym(x.0, y.0);
        }
    }
    assert forall|x: (Seq<u8>, Seq<u8>), y: (Seq<u8>, Seq<u8>), z: (Seq<u8>, Seq<u8>)|
        #[trigger] r(x, y) && #[trigger] r(y, z) implies r(x, z) by {
        if x.0 == y.0 && y.0 == z.0 {
            lemma_bytes_le_trans(x.1, y.1, z.1);
        } else if x.0 == y.0 {
            assert(bytes_le(x.0, z.0) && x.0 != z.0);
        } else if y.0 == z.0 {
            assert(bytes_le(x.0, z.0) && x.0 != z.0);
        } else {
            lemma_bytes_le_trans(x.0, y.0, z.0);
            if x.0 == z.0 {
                lemma_bytes_le_antisym(x.0, y.0);
            }
        }
    }
    assert forall|x: (Seq<u8>, Seq<u8>), y: (Seq<u8>, Seq<u8>)| #[trigger] r(x, y) || #[trigger] r(
        y,
        x,
    ) by {
        if x.0 == y.0 {
            lemma_bytes_le_total(x.1, y.1);
        } else {
            lemma_bytes_le_total(x.0, y.0);
        }
    }
}

/// Ordered insertion keeps a sequence sorted and adds one element.
pub proof fn lemma_insert_le_sorted(s: Seq<(Seq<u8>, Seq<u8>)>, p: (Seq<u8>, Seq<u8>))
    requires
        vstd::relations::sorted_by(s, pair_le_fn()),
    ensures
        vstd::relations::sorted_by(insert_le(s, p), pair_le_fn()),
        insert_le(s, p).to_multiset() == s.to_multiset().insert(p),
        insert_le(s, p).len() == s.len() + 1,
    decreases s.len(),
{
    broadcast use vstd::seq_lib::group_to_multiset_ensures;
    broadcast use vstd::multiset::group_multiset_axioms;

    lemma_pair_le_total_ordering();
    let r = pair_le_fn();
    let t = insert_le(s, p);
    if s.len() == 0 {
        assert(Seq::<(Seq<u8>, Seq<u8>)>::empty().push(p) =~= t);
        assert(t.to_multiset() =~= s.to_multiset().insert(p));
    } else if pair_le(p, s[0]) {
        assert(t =~= seq![p] + s);
        assert(s.to_multiset().insert(p) =~= t.to_multiset()) by {
            vstd::seq_lib::lemma_multiset_commutative(seq![p], s);
            assert(Seq::<(Seq<u8>, Seq<u8>)>::empty().push(p) =~= seq![p]);
        }
        assert forall|i: int, j: int| 0 <= i < j < t.len() implies #[trigger] r(t[i], t[j]) by {
            assert(r(p, s[0]));
            if i == 0 {
                if j > 1 {
                    assert(r(s[0], s[j - 1]));
                }
            } else {
                assert(r(s[i - 1], s[j - 1]));
            }
        }
    } else {
        let d = s.drop_first();
        assert(vstd::relations::sorted_by(d, r)) by {
            assert(forall|i: int, j: int|
                0 <= i < j < d.len() ==> r(s[i + 1], s[j + 1]) && d[i] == s[i + 1] && d[j] == s[j
                    + 1]);
        }
        lemma_insert_le_sorted(d, p);
        let ins = insert_le(d, p);
        assert(t =~= seq![s[0]] + ins);
        assert(s =~= seq![s[0]] + d);
        assert(t.to_multiset() =~= s.to_multiset().insert(p)) by {
            vstd::seq_lib::lemma_multiset_commutative(seq![s[0]], ins);
            vstd::seq_lib::lemma_multiset_commutative(seq![s[0]], d);
            assert(Seq::<(Seq<u8>, Seq<u8>)>::empty().push(s[0]) =~= seq![s[0]]);
        }
        assert(r(s[0], p)) by {
            lemma_bytes_le_total(p.0, s[0].0);
            lemma_bytes_le_total(p.1, s[0].1);
        }
        assert forall|i: int, j: int| 0 <= i < j < t.len() implies #[trigger] r(t[i], t[j]) by {
            if i == 0 {
                let x = ins[j - 1];
                assert(ins.contains(x));
                assert(ins.to_multiset().count(x) > 0);
                if x == p {
                    assert(r(s[0], x));
                } else {
                    assert(d.to_multiset().count(x) > 0);
                    assert(d.contains(x));
                    let k = choose|k: int| 0 <= k < d.len() && d[k] == x;
                    assert(r(s[0], s[k + 1]));
                }
            } else {
                assert(r(ins[i - 1], ins[j - 1]));
            }
        }
    }
}

/// Insertion sort: the result is sorted and keeps every element.
pub proof fn lemma_sort_from_sorted(acc: Seq<(Seq<u8>, Seq<u8>)>, rest: Seq<(Seq<u8>, Seq<u8>)>)
    requires
        vstd::relations::sorted_by(acc, pair_le_fn()),
    ensures
        vstd::relations::sorted_by(sort_from(acc, rest), pair_le_fn()),
        sort_from(acc, rest).to_multiset() == acc.to_multiset().add(rest.to_multiset()),
    decreases rest.len(),
{
    broadcast use vstd::seq_lib::group_to_multiset_ensures;
    broadcast use vstd::multiset::group_multiset_axioms;

    if rest.len() == 0 {
        assert(sort_from(acc, rest).to_multiset() =~= acc.to_multiset().add(rest.to_multiset()));
    } else {
        lemma_insert_le_sorted(acc, rest[0]);
        lemma_sort_from_sorted(insert_le(acc, rest[0]), rest.drop_first());
        assert(rest =~= seq![rest[0]] + rest.drop_first());
        vstd::seq_lib::lemma_multiset_commutative(seq![rest[0]], rest.drop_first());
        assert(Seq::<(Seq<u8>, Seq<u8>)>::empty().push(rest[0]) =~= seq![rest[0]]);
        assert(sort_from(acc, rest).to_multiset() =~= acc.to_multiset().add(rest.to_multiset()));
    }
}

/// [`sort_pairs`] sorts: its result is ordered by key and then
/// value, and is a permutation of its input.
pub proof fn lemma_sort_pairs(s: Seq<(Seq<u8>, Seq<u8>)>)
    ensures
        vstd::relations::sorted_by(sort_pairs(s), pair_le_fn()),
        sort_pairs(s).to_multiset() == s.to_multiset(),
{
    broadcast use vstd::multiset::group_multiset_axioms;

    lemma_sort_from_sorted(Seq::empty(), s);
    assert(Seq::<(Seq<u8>, Seq<u8>)>::empty().to_multiset() =~= vstd::multiset::Multiset::empty()) by {
        broadcast use vstd::seq_lib::group_to_multiset_ensures;

    }
    assert(sort_pairs(s).to_multiset() =~= s.to_multiset());
}

/// In a sorted pair sequence whose keys are pairwise distinct, the
/// keys strictly ascend in byte order.
pub proof fn lemma_sorted_unique_keys_ascend(s: Seq<(Seq<u8>, Seq<u8>)>)
    requires
        vstd::relations::sorted_by(s, pair_le_fn()),
        forall|i: int, j: int| 0 <= i < j < s.len() ==> (#[trigger] s[i]).0 != (#[trigger] s[j]).0,
    ensures
        forall|i: int|
            #![trigger s[i]]
            0 <= i < s.len() - 1 ==> bytes_le(s[i].0, s[i + 1].0) && s[i].0 != s[i + 1].0,
{
    let r = pair_le_fn();
    assert forall|i: int|
        #![trigger s[i]]
        0 <= i < s.len() - 1 implies bytes_le(s[i].0, s[i + 1].0) && s[i].0 != s[i + 1].0 by {
        assert(r(s[i], s[i + 1]));
    }
}

/// The decimal digits of `n` are digits, at least one of them.
pub proof fn lemma_dec_digits_digits(n: nat)
    ensures
        dec_digits(n).len() >= 1,
        all_digits(dec_digits(n)),
    decreases n,
{
    if n >= 10 {
        lemma_dec_digits_digits(n / 10);
    }
}

/// Reading the decimal digits of `n` yields `n` again.
pub proof fn lemma_dec_digits_val(n: nat)
    ensures
        dec_val(dec_digits(n)) == n,
    decreases n,
{
    if n < 10 {
        assert(dec_digits(n) =~= seq![(48 + n) as u8]);
        assert(seq![(48 + n) as u8].drop_last() =~= Seq::<u8>::empty());
        assert(dec_val(Seq::<u8>::empty()) == 0);
        assert(dec_val(dec_digits(n)) == n);
    } else {
        lemma_dec_digits_val(n / 10);
        assert(dec_digits(n).drop_last() =~= dec_digits(n / 10));
    }
}

/// A byte-string encoding parses back to its bytes, whatever follows.
pub proof fn lemma_sp_bstr_round(s: Seq<u8>, rest: Seq<u8>)
    ensures
        sp_bstr(enc_bstr(s) + rest) == Parsed::Found(s, enc_bstr(s).len() as int),
{
    let b = enc_bstr(s) + rest;
    let dd = dec_digits(s.len());
    lemma_dec_digits_digits(s.len());
    lemma_dec_digits_val(s.len());
    assert(forall|j: int| 0 <= j < dd.len() ==> b[j] == dd[j]);
    assert(b[dd.len() as int] == TOK_COLON);
    assert(!is_digit(TOK_COLON));
    lemma_digits_run_char(b, dd.len() as int);
    assert(digits_run(b) =~= dd);
    assert(b.subrange(dd.len() as int + 1, dd.len() as int + 1 + s.len()) =~= s);
}

/// A dict body whose pairs carry byte-string values parses back to
/// those pairs, whatever follows the closing `e`.
#[verifier::rlimit(40)]
pub proof fn lemma_sp_dict_round(dps: Seq<(Seq<u8>, ObjV)>, i: int, rest: Seq<u8>)
    requires
        0 <= i <= dps.len(),
        forall|j: int| 0 <= j < dps.len() ==> (#[trigger] dps[j].1) is Bytes,
    ensures
        sp_dict(enc_pairs(dps, i) + seq![TOK_END] + rest) == Parsed::Found(
            dps.skip(i),
            enc_pairs(dps, i).len() as int + 1,
        ),
    decreases dps.len() - i,
{
    let b = enc_pairs(dps, i) + seq![TOK_END] + rest;
    if i == dps.len() {
        assert(b =~= seq![TOK_END] + rest);
        assert(b[0] == TOK_END);
        assert(dps.skip(i) =~= Seq::<(Seq<u8>, ObjV)>::empty());
    } else {
        let k = dps[i].0;
        let v = dps[i].1->Bytes_0;
        assert(dps[i].1 == ObjV::Bytes(v));
        let kenc = enc_bstr(k);
        let venc = enc_bstr(v);
        assert(enc_objv(ObjV::Bytes(v)) == venc);
        assert(enc_pairs(dps, i) == enc_pair(dps[i]) + enc_pairs(dps, i + 1));
        assert(enc_pair(dps[i]) == kenc + venc);
        let rest1 = venc + (enc_pairs(dps, i + 1) + seq![TOK_END] + rest);
        assert(b =~= kenc + rest1);
        lemma_sp_bstr_round(k, rest1);
        lemma_dec_digits_digits(k.len());
        assert(b[0] == dec_digits(k.len())[0]);
        assert(is_digit(b[0]));
        assert(b[0] != TOK_END);
        let nk = kenc.len() as int;
        assert(sp_bstr(b) == Parsed::<Seq<u8>>::Found(k, nk));
        assert(1 <= nk <= b.len());
        let rest2 = enc_pairs(dps, i + 1) + seq![TOK_END] + rest;
        assert(b.skip(nk) =~= venc + rest2);
        lemma_sp_bstr_round(v, rest2);
        lemma_dec_digits_digits(v.len());
        assert((venc + rest2)[0] == dec_digits(v.len())[0]);
        assert(is_digit((venc + rest2)[0]));
        let nv = venc.len() as int;
        assert(sp_value(b.skip(nk)) == Parsed::<ObjV>::Found(ObjV::Bytes(v), nv));
        assert(1 <= nv && nk + nv <= b.len());
        lemma_sp_dict_round(dps, i + 1, rest);
        assert(b.skip(nk + nv) =~= enc_pairs(dps, i + 1) + seq![TOK_END] + rest);
        assert(sp_dict(b.skip(nk + nv)) == Parsed::<Seq<(Seq<u8>, ObjV)>>::Found(
            dps.skip(i + 1),
            enc_pairs(dps, i + 1).len() as int + 1,
        ));
        assert(seq![(k, dps[i].1)] + dps.skip(i + 1) =~= dps.skip(i));
        assert(sp_dict(b) == Parsed::<Seq<(Seq<u8>, ObjV)>>::Found(
            dps.skip(i),
            enc_pairs(dps, i).len() as int + 1,
        ));
    }
}

/// Round trip of a dict of byte strings: its wire form decodes back
/// to exactly the same pairs, in the same order, whatever bytes
/// follow it in the stream.
pub proof fn lemma_strdict_round_trip(ps: Seq<(Seq<u8>, Seq<u8>)>, rest: Seq<u8>)
    ensures
        sp_value(enc_objv(strdict_v(ps)) + rest) == Parsed::Found(
            strdict_v(ps),
            enc_objv(strdict_v(ps)).len() as int,
        ),
{
    let spv = str_pairs_v(ps, 0);
    lemma_str_pairs_v_all(ps);
    let b = enc_objv(strdict_v(ps)) + rest;
    assert(enc_objv(strdict_v(ps)) == seq![TOK_DICT] + enc_pairs(spv, 0) + seq![TOK_END]);
    assert(b[0] == TOK_DICT);
    assert(!is_digit(TOK_DICT) && TOK_DICT != TOK_INT && TOK_DICT != TOK_LIST);
    assert(forall|j: int| 0 <= j < spv.len() ==> (#[trigger] spv[j].1) is Bytes);
    lemma_sp_dict_round(spv, 0, rest);
    assert(b.drop_first() =~= enc_pairs(spv, 0) + seq![TOK_END] + rest);
    assert(spv.skip(0) =~= spv);
    assert(sp_dict(b.drop_first()) == Parsed::<Seq<(Seq<u8>, ObjV)>>::Found(
        spv,
        enc_pairs(spv, 0).len() as int + 1,
    ));
}

} // verus!
