use vstd::prelude::*;
use vstd::string::*;
use vstd::utf8::*;

verus! {

broadcast use group_utf8_lib;

/// The longest prefix of `b` of length at most `n` that is valid UTF-8.
pub open spec fn longest_valid_prefix(b: Seq<u8>, n: nat) -> nat
    decreases n,
{
    if n == 0 {
        0
    } else if n <= b.len() && valid_utf8(b.subrange(0, n as int)) {
        n
    } else {
        longest_valid_prefix(b, (n - 1) as nat)
    }
}

/// Length of the longest prefix of `b` that is valid UTF-8.
pub open spec fn valid_up_to(b: Seq<u8>) -> nat {
    longest_valid_prefix(b, b.len())
}

/// Length of the invalid sequence that the UTF-8 decoder reports right after the
/// valid prefix of `b`; `None` when `b` ends inside an incomplete sequence.
pub uninterp spec fn utf8_error_len(b: Seq<u8>) -> Option<usize>;

/// Number of bytes after the valid prefix of an invalid `b` that form its broken run:
/// the reported invalid sequence, or everything left when the input ends inside one.
/// (The decoder's reported length always lies in the range tested here.)
pub open spec fn broken_len(b: Seq<u8>) -> nat {
    let k = valid_up_to(b);
    match utf8_error_len(b) {
        Some(l) => if 1 <= l && k + l <= b.len() {
            l as nat
        } else {
            (b.len() - k) as nat
        },
        None => (b.len() - k) as nat,
    }
}

/// The chunk decomposition of `b`: pairs of (valid text bytes, broken bytes).
/// The last branch is never taken (see `lemma_chunks_step`); it only keeps the
/// definition total.
pub open spec fn chunks_of(b: Seq<u8>) -> Seq<(Seq<u8>, Seq<u8>)>
    decreases b.len(),
{
    if b.len() == 0 {
        seq![]
    } else if valid_utf8(b) {
        seq![(b, Seq::empty())]
    } else {
        let k = valid_up_to(b) as int;
        let e = k + broken_len(b);
        if 0 < e <= b.len() {
            seq![(b.subrange(0, k), b.subrange(k, e))] + chunks_of(b.subrange(e, b.len() as int))
        } else {
            seq![]
        }
    }
}

/// All bytes of a chunk sequence, each chunk's valid part followed by its broken part.
pub open spec fn joined(cs: Seq<(Seq<u8>, Seq<u8>)>) -> Seq<u8>
    decreases cs.len(),
{
    if cs.len() == 0 {
        seq![]
    } else {
        cs[0].0 + cs[0].1 + joined(cs.drop_first())
    }
}

pub proof fn lemma_longest_valid_prefix(b: Seq<u8>, n: nat)
    requires
        n <= b.len(),
    ensures
        longest_valid_prefix(b, n) <= n,
        valid_utf8(b.subrange(0, longest_valid_prefix(b, n) as int)),
        forall|j: int|
            longest_valid_prefix(b, n) < j <= n ==> !valid_utf8(#[trigger] b.subrange(0, j)),
    decreases n,
{
    if n == 0 {
        assert(b.subrange(0, 0).len() == 0);
    } else if !valid_utf8(b.subrange(0, n as int)) {
        lemma_longest_valid_prefix(b, (n - 1) as nat);
    }
}

pub proof fn lemma_valid_up_to(b: Seq<u8>)
    ensures
        valid_up_to(b) <= b.len(),
        valid_utf8(b.subrange(0, valid_up_to(b) as int)),
        valid_utf8(b) <==> valid_up_to(b) == b.len(),
{
    lemma_longest_valid_prefix(b, b.len());
    assert(b.subrange(0, b.len() as int) == b);
}

/// Splitting `b` at the end of its valid prefix and its broken run.
pub proof fn lemma_chunks_step(b: Seq<u8>)
    requires
        b.len() > 0,
        !valid_utf8(b),
    ensures
        0 < valid_up_to(b) + broken_len(b) <= b.len(),
        broken_len(b) > 0,
        chunks_of(b) == seq![
            (
                b.subrange(0, valid_up_to(b) as int),
                b.subrange(valid_up_to(b) as int, (valid_up_to(b) + broken_len(b)) as int),
            ),
        ] + chunks_of(b.subrange((valid_up_to(b) + broken_len(b)) as int, b.len() as int)),
{
    lemma_valid_up_to(b);
}

/// Joining the chunks of `b`, each valid run followed by its broken run, gives back `b`.
pub proof fn lemma_chunks_rejoin(b: Seq<u8>)
    ensures
        joined(chunks_of(b)) == b,
    decreases b.len(),
{
    if b.len() == 0 {
        assert(b =~= Seq::<u8>::empty());
    } else if valid_utf8(b) {
        let cs = chunks_of(b);
        assert(joined(cs.drop_first()) =~= Seq::<u8>::empty());
        assert(cs.drop_first() =~= Seq::<(Seq<u8>, Seq<u8>)>::empty());
        assert(b + Seq::<u8>::empty() + Seq::<u8>::empty() =~= b);
    } else {
        lemma_chunks_step(b);
        let e = valid_up_to(b) + broken_len(b);
        let r = b.subrange(e as int, b.len() as int);
        lemma_chunks_rejoin(r);
        let cs = chunks_of(b);
        assert(cs.drop_first() =~= chunks_of(r));
        assert(b =~= b.subrange(0, valid_up_to(b) as int) + b.subrange(
            valid_up_to(b) as int,
            e as int,
        ) + r);
    }
}

/// Every valid run is valid UTF-8; every chunk but the last has a non-empty broken run;
/// the last one has an empty broken run exactly when what remained for it was valid UTF-8.
pub proof fn lemma_chunks_broken_runs(b: Seq<u8>)
    ensures
        forall|i: int| 0 <= i < chunks_of(b).len() ==> valid_utf8(#[trigger] chunks_of(b)[i].0),
        forall|i: int|
            0 <= i < chunks_of(b).len() - 1 ==> (#[trigger] chunks_of(b)[i]).1.len() > 0,
        chunks_of(b).len() > 0 ==> (chunks_of(b).last().1.len() == 0 <==> valid_utf8(
            chunks_of(b).last().0 + chunks_of(b).last().1,
        )),
    decreases b.len(),
{
    if b.len() == 0 {
    } else if valid_utf8(b) {
        assert(b + Seq::<u8>::empty() =~= b);
    } else {
        lemma_chunks_step(b);
        let k = valid_up_to(b) as int;
        let e = valid_up_to(b) + broken_len(b);
        let r = b.subrange(e as int, b.len() as int);
        lemma_chunks_broken_runs(r);
        lemma_valid_up_to(b);
        let cs = chunks_of(b);
        assert forall|i: int| 1 <= i < cs.len() implies cs[i] == chunks_of(r)[i - 1] by {}
        if r.len() == 0 {
            assert(chunks_of(r).len() == 0);
            assert(cs.len() == 1);
            assert(b.subrange(0, k) + b.subrange(k, e as int) =~= b);
        } else {
            if !valid_utf8(r) {
                lemma_chunks_step(r);
            }
            assert(cs.last() == chunks_of(r).last());
        }
    }
}

/// Valid UTF-8 input forms a single chunk: all of it as text, nothing broken.
pub proof fn lemma_chunks_of_valid(b: Seq<u8>)
    requires
        valid_utf8(b),
        b.len() > 0,
    ensures
        chunks_of(b) == seq![(b, Seq::<u8>::empty())],
{
}

/// One step of the decomposition: a run of valid text and the broken bytes right after it.
pub struct Utf8Chunk<'a> {
    pub valid: &'a str,
    pub broken: &'a [u8],
}

impl<'a> Utf8Chunk<'a> {
    pub open spec fn view(&self) -> (Seq<u8>, Seq<u8>) {
        (self.valid.spec_bytes(), self.broken@)
    }
}

/// A one-shot cursor that yields the chunks of a byte sequence in order.
pub struct Utf8ChunksIter<'a> {
    bytes: &'a [u8],
}

/// Relies on std::str::from_utf8: `Ok` exactly on valid UTF-8, holding the same bytes.
/// Otherwise its error gives the longest valid prefix (`valid_up_to`) and either the
/// length of the invalid byte sequence that starts there, or `None` when the input
/// ends 1 to 3 bytes into an incomplete sequence (`error_len`).
#[verifier::external_body]
fn check_utf8(b: &[u8]) -> (r: Result<&str, (usize, Option<usize>)>)
    ensures
        r is Ok <==> valid_utf8(b@),
        r matches Ok(s) ==> s.spec_bytes() == b@,
        r matches Err(e) ==> e.0 == valid_up_to(b@) && e.1 == utf8_error_len(b@),
        r matches Err(e) ==> (e.1 matches Some(l) ==> 1 <= l && e.0 + l <= b@.len()),
        r matches Err(e) ==> (e.1 is None ==> b@.len() - e.0 <= 3),
{
    match std::str::from_utf8(b) {
        Ok(s) => Ok(s),
        Err(e) => Err((e.valid_up_to(), e.error_len())),
    }
}

/// The whole of `b` as text, or the offset of the first invalid byte and the
/// length of the invalid sequence there (`None`: an incomplete sequence at the end).
pub fn decode_text(b: &[u8]) -> (r: Result<&str, (usize, Option<usize>)>)
    ensures
        r is Ok <==> valid_utf8(b@),
        r matches Ok(s) ==> s.spec_bytes() == b@,
        r matches Err(e) ==> e.0 == valid_up_to(b@) && e.0 < b@.len(),
        r matches Err(e) ==> e.1 == utf8_error_len(b@),
{
    proof {
        lemma_valid_up_to(b@);
    }
    check_utf8(b)
}

impl<'a> Utf8ChunksIter<'a> {
    /// The bytes not yet handed out.
    pub closed spec fn rest(&self) -> Seq<u8> {
        self.bytes@
    }

    pub fn new(bytes: &'a [u8]) -> (r: Utf8ChunksIter<'a>)
        ensures
            r.rest() == bytes@,
    {
        Utf8ChunksIter { bytes }
    }

    pub fn next(&mut self) -> (r: Option<Utf8Chunk<'a>>)
        ensures
            r is None <==> old(self).rest().len() == 0,
            r is None ==> final(self).rest() == old(self).rest(),
            r matches Some(c) ==> chunks_of(old(self).rest()) == seq![c.view()] + chunks_of(
                final(self).rest(),
            ),
            r matches Some(c) ==> old(self).rest() == c.view().0 + c.view().1 + final(self).rest(),
            r is Some ==> final(self).rest().len() < old(self).rest().len(),
    {
        let b = self.bytes;
        if b.len() == 0 {
            return None;
        }
        proof {
            lemma_valid_up_to(b@);
        }
        match check_utf8(b) {
            Ok(s) => {
                let (_, rest) = b.split_at(b.len());
                self.bytes = rest;
                assert(chunks_of(rest@) == Seq::<(Seq<u8>, Seq<u8>)>::empty());
                assert(rest@ =~= Seq::<u8>::empty());
                assert(b@ =~= b@ + rest@ + rest@);
                Some(Utf8Chunk { valid: s, broken: rest })
            },
            Err((k, l)) => {
                let (valid, tail) = b.split_at(k);
                let n = match l {
                    Some(n) => n,
                    None => tail.len(),
                };
                let (broken, rest) = tail.split_at(n);
                self.bytes = rest;
                assert(valid@ == b@.subrange(0, k as int));
                // `valid` is the longest valid prefix, so this decode cannot fail
                let s = match check_utf8(valid) {
                    Ok(s) => s,
                    Err(_) => "",
                };
                assert(b@ =~= valid@ + broken@ + rest@);
                assert(broken@ =~= b@.subrange(k as int, k + n));
                assert(rest@ =~= b@.subrange(k + n, b@.len() as int));
                Some(Utf8Chunk { valid: s, broken })
            },
        }
    }
}

} // verus!
