use vstd::prelude::*;
use vstd::string::*;
use vstd::utf8::*;

use crate::utf8chunks::{decode_text, valid_up_to, utf8_error_len, Utf8ChunksIter};

verus! {

/// A byte is ASCII when its high bit is clear.
pub open spec fn is_ascii_byte(b: u8) -> bool {
    b < 128
}

/// ASCII upper case of one byte; every other byte stays as it is.
pub open spec fn upper_byte(b: u8) -> u8 {
    if 97 <= b <= 122 {
        (b - 32) as u8
    } else {
        b
    }
}

/// ASCII lower case of one byte; every other byte stays as it is.
pub open spec fn lower_byte(b: u8) -> u8 {
    if 65 <= b <= 90 {
        (b + 32) as u8
    } else {
        b
    }
}

/// Equal up to ASCII case: same length, and the same bytes once lowered.
pub open spec fn eq_ascii_case(a: Seq<u8>, b: Seq<u8>) -> bool {
    a.len() == b.len() && forall|i: int| 0 <= i < a.len() ==> lower_byte(a[i]) == lower_byte(b[i])
}

/// Lexicographic order of two byte sequences, byte by byte, a proper prefix first.
pub open spec fn lex_cmp(a: Seq<u8>, b: Seq<u8>) -> core::cmp::Ordering
    decreases a.len(),
{
    if a.len() == 0 {
        if b.len() == 0 {
            core::cmp::Ordering::Equal
        } else {
            core::cmp::Ordering::Less
        }
    } else if b.len() == 0 {
        core::cmp::Ordering::Greater
    } else if a[0] < b[0] {
        core::cmp::Ordering::Less
    } else if a[0] > b[0] {
        core::cmp::Ordering::Greater
    } else {
        lex_cmp(a.drop_first(), b.drop_first())
    }
}

/// Why a byte string is not text: the offset of the first invalid byte, and the
/// length of the invalid sequence there (`None` when the input ends inside one).
#[derive(Debug, Clone, Copy, PartialEq, Eq)]
pub struct Utf8Error {
    valid_up_to: usize,
    error_len: Option<usize>,
}

impl Utf8Error {
    pub closed spec fn spec_valid_up_to(&self) -> usize {
        self.valid_up_to
    }

    pub closed spec fn spec_error_len(&self) -> Option<usize> {
        self.error_len
    }

    pub fn valid_up_to(&self) -> (r: usize)
        ensures
            r == self.spec_valid_up_to(),
    {
        self.valid_up_to
    }

    pub fn error_len(&self) -> (r: Option<usize>)
        ensures
            r == self.spec_error_len(),
    {
        self.error_len
    }
}

/// A shared view of bytes that reads like text but need not be UTF-8.
#[derive(Clone, Copy)]
pub struct BitStr<'a> {
    inner: &'a [u8],
}

impl<'a> View for BitStr<'a> {
    type V = Seq<u8>;

    closed spec fn view(&self) -> Seq<u8> {
        self.inner@
    }
}

impl<'a> BitStr<'a> {
    pub fn from(bytes: &'a [u8]) -> (r: BitStr<'a>)
        ensures
            r@ == bytes@,
    {
        BitStr { inner: bytes }
    }

    pub fn from_str(s: &'a str) -> (r: BitStr<'a>)
        ensures
            r@ == s.spec_bytes(),
    {
        BitStr { inner: s.as_bytes() }
    }

    /// The empty view.
    pub fn empty() -> (r: BitStr<'a>)
        ensures
            r@ == Seq::<u8>::empty(),
    {
        let e = "";
        proof {
            reveal_strlit("");
        }
        BitStr { inner: e.as_bytes() }
    }

    pub fn as_bytes(&self) -> (r: &'a [u8])
        ensures
            r@ == self@,
    {
        self.inner
    }

    pub fn len(&self) -> (r: usize)
        ensures
            r == self@.len(),
    {
        self.inner.len()
    }

    pub fn is_empty(&self) -> (r: bool)
        ensures
            r == (self@.len() == 0),
    {
        self.inner.len() == 0
    }

    pub fn first(&self) -> (r: Option<u8>)
        ensures
            self@.len() == 0 ==> r is None,
            self@.len() > 0 ==> r == Some(self@[0]),
    {
        if self.inner.len() == 0 {
            None
        } else {
            Some(self.inner[0])
        }
    }

    pub fn last(&self) -> (r: Option<u8>)
        ensures
            self@.len() == 0 ==> r is None,
            self@.len() > 0 ==> r == Some(self@.last()),
    {
        if self.inner.len() == 0 {
            None
        } else {
            Some(self.inner[self.inner.len() - 1])
        }
    }

    pub fn split_first(&self) -> (r: Option<(u8, BitStr<'a>)>)
        ensures
            self@.len() == 0 ==> r is None,
            self@.len() > 0 ==> (r matches Some(p) && p.0 == self@[0] && p.1@ == self@.drop_first()),
    {
        if self.inner.len() == 0 {
            None
        } else {
            let (head, tail) = self.inner.split_at(1);
            Some((head[0], BitStr { inner: tail }))
        }
    }

    pub fn split_at(&self, mid: usize) -> (r: (BitStr<'a>, BitStr<'a>))
        requires
            mid <= self@.len(),
        ensures
            r.0@ == self@.subrange(0, mid as int),
            r.1@ == self@.subrange(mid as int, self@.len() as int),
    {
        let (a, b) = self.inner.split_at(mid);
        (BitStr { inner: a }, BitStr { inner: b })
    }

    pub fn contains_u8(&self, x: u8) -> (r: bool)
        ensures
            r == self@.contains(x),
    {
        let mut i: usize = 0;
        while i < self.inner.len()
            invariant
                i <= self.inner@.len(),
                forall|j: int| 0 <= j < i ==> self.inner@[j] != x,
            decreases self.inner@.len() - i,
        {
            if self.inner[i] == x {
                return true;
            }
            i += 1;
        }
        false
    }

    pub fn contains(&self, x: u8) -> (r: bool)
        ensures
            r == self@.contains(x),
    {
        self.contains_u8(x)
    }

    pub fn starts_with(&self, x: BitStr) -> (r: bool)
        ensures
            r == (x@.len() <= self@.len() && self@.subrange(0, x@.len() as int) == x@),
    {
        let n = x.inner.len();
        if n > self.inner.len() {
            return false;
        }
        let mut i: usize = 0;
        while i < n
            invariant
                n == x@.len() <= self@.len(),
                i <= n,
                forall|j: int| 0 <= j < i ==> self@[j] == x@[j],
            decreases n - i,
        {
            if self.inner[i] != x.inner[i] {
                assert(self@.subrange(0, n as int)[i as int] != x@[i as int]);
                return false;
            }
            i += 1;
        }
        assert(self@.subrange(0, n as int) =~= x@);
        true
    }

    pub fn ends_with(&self, x: BitStr) -> (r: bool)
        ensures
            r == (x@.len() <= self@.len() && self@.subrange(
                self@.len() - x@.len(),
                self@.len() as int,
            ) == x@),
    {
        let n = x.inner.len();
        let m = self.inner.len();
        if n > m {
            return false;
        }
        let off = m - n;
        let mut i: usize = 0;
        while i < n
            invariant
                n == x@.len() <= self@.len() == m,
                off == m - n,
                i <= n,
                forall|j: int| 0 <= j < i ==> self@[off + j] == x@[j],
            decreases n - i,
        {
            if self.inner[off + i] != x.inner[i] {
                assert(self@.subrange(off as int, m as int)[i as int] != x@[i as int]);
                return false;
            }
            i += 1;
        }
        assert(self@.subrange(off as int, m as int) =~= x@);
        true
    }

    /// The bytes, in order, as a fresh sequence.
    pub fn bytes(&self) -> (r: Vec<u8>)
        ensures
            r@ == self@,
    {
        let mut v: Vec<u8> = Vec::new();
        let mut i: usize = 0;
        while i < self.inner.len()
            invariant
                i <= self@.len(),
                v@ == self@.subrange(0, i as int),
            decreases self@.len() - i,
        {
            v.push(self.inner[i]);
            i += 1;
            assert(v@ =~= self@.subrange(0, i as int));
        }
        assert(self@.subrange(0, i as int) =~= self@);
        v
    }

    pub fn utf8_chunks(&self) -> (r: Utf8ChunksIter<'a>)
        ensures
            r.rest() == self@,
    {
        Utf8ChunksIter::new(self.inner)
    }

    pub fn to_str(&self) -> (r: Result<&'a str, Utf8Error>)
        ensures
            r is Ok <==> valid_utf8(self@),
            r matches Ok(s) ==> s.spec_bytes() == self@,
            r matches Err(e) ==> e.spec_valid_up_to() == valid_up_to(self@) && e.spec_valid_up_to()
                < self@.len() && e.spec_error_len() == utf8_error_len(self@),
    {
        match decode_text(self.inner) {
            Ok(s) => Ok(s),
            Err((k, l)) => Err(Utf8Error { valid_up_to: k, error_len: l }),
        }
    }

    pub fn is_ascii(&self) -> (r: bool)
        ensures
            r == forall|i: int| 0 <= i < self@.len() ==> is_ascii_byte(#[trigger] self@[i]),
    {
        let mut i: usize = 0;
        while i < self.inner.len()
            invariant
                i <= self@.len(),
                forall|j: int| 0 <= j < i ==> is_ascii_byte(#[trigger] self@[j]),
            decreases self@.len() - i,
        {
            if self.inner[i] >= 128 {
                return false;
            }
            i += 1;
        }
        true
    }

    pub fn eq_ignore_ascii_case(&self, other: BitStr) -> (r: bool)
        ensures
            r == eq_ascii_case(self@, other@),
    {
        if self.inner.len() != other.inner.len() {
            return false;
        }
        let mut i: usize = 0;
        while i < self.inner.len()
            invariant
                i <= self@.len() == other@.len(),
                forall|j: int| 0 <= j < i ==> lower_byte(self@[j]) == lower_byte(other@[j]),
            decreases self@.len() - i,
        {
            if to_lower(self.inner[i]) != to_lower(other.inner[i]) {
                return false;
            }
            i += 1;
        }
        true
    }

    /// Byte-wise comparison, lexicographic over the byte values.
    pub fn compare(&self, other: &BitStr) -> (r: core::cmp::Ordering)
        ensures
            r == lex_cmp(self@, other@),
    {
        let a = self.inner;
        let b = other.inner;
        let mut i: usize = 0;
        assert(a@.subrange(0, a@.len() as int) =~= a@);
        assert(b@.subrange(0, b@.len() as int) =~= b@);
        while i < a.len() && i < b.len()
            invariant
                a@ == self@,
                b@ == other@,
                i <= a@.len(),
                i <= b@.len(),
                lex_cmp(a@, b@) == lex_cmp(a@.subrange(i as int, a@.len() as int), b@.subrange(
                    i as int,
                    b@.len() as int,
                )),
            decreases a@.len() - i,
        {
            let ghost sa = a@.subrange(i as int, a@.len() as int);
            let ghost sb = b@.subrange(i as int, b@.len() as int);
            assert(sa[0] == a@[i as int] && sb[0] == b@[i as int]);
            if a[i] < b[i] {
                return core::cmp::Ordering::Less;
            } else if a[i] > b[i] {
                return core::cmp::Ordering::Greater;
            }
            assert(sa.drop_first() =~= a@.subrange(i + 1, a@.len() as int));
            assert(sb.drop_first() =~= b@.subrange(i + 1, b@.len() as int));
            i += 1;
        }
        let ghost sa = a@.subrange(i as int, a@.len() as int);
        let ghost sb = b@.subrange(i as int, b@.len() as int);
        assert(i == a@.len() ==> sa.len() == 0);
        assert(i == b@.len() ==> sb.len() == 0);
        if i < a.len() {
            core::cmp::Ordering::Greater
        } else if i < b.len() {
            core::cmp::Ordering::Less
        } else {
            core::cmp::Ordering::Equal
        }
    }
}

impl<'a> Default for BitStr<'a> {
    fn default() -> (r: BitStr<'a>)
        ensures
            r@ == Seq::<u8>::empty(),
    {
        BitStr::empty()
    }
}

/// Byte-wise equality: two views are equal exactly when they hold the same bytes.
impl<'a, 'b> PartialEq<BitStr<'b>> for BitStr<'a> {
    fn eq(&self, other: &BitStr<'b>) -> (r: bool) {
        proof {
            lemma_lex_cmp_equal(self@, other@);
        }
        match self.compare(other) {
            core::cmp::Ordering::Equal => true,
            _ => false,
        }
    }
}

impl<'a, 'b> vstd::std_specs::cmp::PartialEqSpecImpl<BitStr<'b>> for BitStr<'a> {
    open spec fn obeys_eq_spec() -> bool {
        true
    }

    open spec fn eq_spec(&self, other: &BitStr<'b>) -> bool {
        self@ == other@
    }
}

/// Lexicographic order over the byte values.
impl<'a, 'b> PartialOrd<BitStr<'b>> for BitStr<'a> {
    fn partial_cmp(&self, other: &BitStr<'b>) -> (r: Option<core::cmp::Ordering>) {
        Some(self.compare(other))
    }
}

impl<'a, 'b> vstd::std_specs::cmp::PartialOrdSpecImpl<BitStr<'b>> for BitStr<'a> {
    open spec fn obeys_partial_cmp_spec() -> bool {
        true
    }

    open spec fn partial_cmp_spec(&self, other: &BitStr<'b>) -> Option<core::cmp::Ordering> {
        Some(lex_cmp(self@, other@))
    }
}

impl<'a, 'b> PartialEq<&'b str> for BitStr<'a> {
    fn eq(&self, other: &&'b str) -> (r: bool) {
        let o = BitStr::from_str(*other);
        proof {
            lemma_lex_cmp_equal(self@, o@);
        }
        match self.compare(&o) {
            core::cmp::Ordering::Equal => true,
            _ => false,
        }
    }
}

impl<'a, 'b> vstd::std_specs::cmp::PartialEqSpecImpl<&'b str> for BitStr<'a> {
    open spec fn obeys_eq_spec() -> bool {
        true
    }

    open spec fn eq_spec(&self, other: &&'b str) -> bool {
        self@ == other.spec_bytes()
    }
}

impl<'a, 'b> PartialEq<BitStr<'a>> for &'b str {
    fn eq(&self, other: &BitStr<'a>) -> (r: bool) {
        let s = BitStr::from_str(*self);
        proof {
            lemma_lex_cmp_equal(s@, other@);
        }
        match s.compare(other) {
            core::cmp::Ordering::Equal => true,
            _ => false,
        }
    }
}

impl<'a, 'b> vstd::std_specs::cmp::PartialEqSpecImpl<BitStr<'a>> for &'b str {
    open spec fn obeys_eq_spec() -> bool {
        true
    }

    open spec fn eq_spec(&self, other: &BitStr<'a>) -> bool {
        self.spec_bytes() == other@
    }
}

impl<'a, 'b> PartialOrd<&'b str> for BitStr<'a> {
    fn partial_cmp(&self, other: &&'b str) -> (r: Option<core::cmp::Ordering>) {
        Some(self.compare(&BitStr::from_str(*other)))
    }
}

impl<'a, 'b> vstd::std_specs::cmp::PartialOrdSpecImpl<&'b str> for BitStr<'a> {
    open spec fn obeys_partial_cmp_spec() -> bool {
        true
    }

    open spec fn partial_cmp_spec(&self, other: &&'b str) -> Option<core::cmp::Ordering> {
        Some(lex_cmp(self@, other.spec_bytes()))
    }
}

impl<'a, 'b> PartialOrd<BitStr<'a>> for &'b str {
    fn partial_cmp(&self, other: &BitStr<'a>) -> (r: Option<core::cmp::Ordering>) {
        Some(BitStr::from_str(*self).compare(other))
    }
}

impl<'a, 'b> vstd::std_specs::cmp::PartialOrdSpecImpl<BitStr<'a>> for &'b str {
    open spec fn obeys_partial_cmp_spec() -> bool {
        true
    }

    open spec fn partial_cmp_spec(&self, other: &BitStr<'a>) -> Option<core::cmp::Ordering> {
        Some(lex_cmp(self.spec_bytes(), other@))
    }
}

impl<'a, 'b> PartialEq<&'b [u8]> for BitStr<'a> {
    fn eq(&self, other: &&'b [u8]) -> (r: bool) {
        let o = BitStr::from(*other);
        proof {
            lemma_lex_cmp_equal(self@, o@);
        }
        match self.compare(&o) {
            core::cmp::Ordering::Equal => true,
            _ => false,
        }
    }
}

impl<'a, 'b> vstd::std_specs::cmp::PartialEqSpecImpl<&'b [u8]> for BitStr<'a> {
    open spec fn obeys_eq_spec() -> bool {
        true
    }

    open spec fn eq_spec(&self, other: &&'b [u8]) -> bool {
        self@ == other@
    }
}

impl<'a, 'b> PartialEq<BitStr<'a>> for &'b [u8] {
    fn eq(&self, other: &BitStr<'a>) -> (r: bool) {
        let s = BitStr::from(*self);
        proof {
            lemma_lex_cmp_equal(s@, other@);
        }
        match s.compare(other) {
            core::cmp::Ordering::Equal => true,
            _ => false,
        }
    }
}

impl<'a, 'b> vstd::std_specs::cmp::PartialEqSpecImpl<BitStr<'a>> for &'b [u8] {
    open spec fn obeys_eq_spec() -> bool {
        true
    }

    open spec fn eq_spec(&self, other: &BitStr<'a>) -> bool {
        self@ == other@
    }
}

impl<'a, 'b> PartialOrd<&'b [u8]> for BitStr<'a> {
    fn partial_cmp(&self, other: &&'b [u8]) -> (r: Option<core::cmp::Ordering>) {
        Some(self.compare(&BitStr::from(*other)))
    }
}

impl<'a, 'b> vstd::std_specs::cmp::PartialOrdSpecImpl<&'b [u8]> for BitStr<'a> {
    open spec fn obeys_partial_cmp_spec() -> bool {
        true
    }

    open spec fn partial_cmp_spec(&self, other: &&'b [u8]) -> Option<core::cmp::Ordering> {
        Some(lex_cmp(self@, other@))
    }
}

impl<'a, 'b> PartialOrd<BitStr<'a>> for &'b [u8] {
    fn partial_cmp(&self, other: &BitStr<'a>) -> (r: Option<core::cmp::Ordering>) {
        Some(BitStr::from(*self).compare(other))
    }
}

impl<'a, 'b> vstd::std_specs::cmp::PartialOrdSpecImpl<BitStr<'a>> for &'b [u8] {
    open spec fn obeys_partial_cmp_spec() -> bool {
        true
    }

    open spec fn partial_cmp_spec(&self, other: &BitStr<'a>) -> Option<core::cmp::Ordering> {
        Some(lex_cmp(self@, other@))
    }
}

/// Lexicographic comparison says `Equal` exactly on identical byte sequences.
pub proof fn lemma_lex_cmp_equal(a: Seq<u8>, b: Seq<u8>)
    ensures
        (lex_cmp(a, b) == core::cmp::Ordering::Equal) <==> a == b,
    decreases a.len(),
{
    if a.len() > 0 && b.len() > 0 && a[0] == b[0] {
        lemma_lex_cmp_equal(a.drop_first(), b.drop_first());
        if a.drop_first() == b.drop_first() {
            assert(a =~= seq![a[0]] + a.drop_first());
            assert(b =~= seq![b[0]] + b.drop_first());
        }
    } else if a.len() == 0 && b.len() == 0 {
        assert(a =~= b);
    }
}

/// Swapping the operands of a lexicographic comparison reverses its outcome.
pub proof fn lemma_lex_cmp_antisymmetric(a: Seq<u8>, b: Seq<u8>)
    ensures
        lex_cmp(a, b) == core::cmp::Ordering::Less <==> lex_cmp(b, a)
            == core::cmp::Ordering::Greater,
    decreases a.len(),
{
    if a.len() > 0 && b.len() > 0 && a[0] == b[0] {
        lemma_lex_cmp_antisymmetric(a.drop_first(), b.drop_first());
    }
}

/// An exclusive view of bytes, through which they can be changed in place.
/// Its contracts speak of `final(inner)`: what the borrowed bytes hold once the
/// view is given up.
pub struct BitStrMut<'a> {
    pub inner: &'a mut [u8],
}

impl<'a> View for BitStrMut<'a> {
    type V = Seq<u8>;

    open spec fn view(&self) -> Seq<u8> {
        self.inner@
    }
}

impl<'a> BitStrMut<'a> {
    /// Wraps `bytes`: what the view holds when it is given up is what `bytes` then holds.
    pub fn from_mut(bytes: &'a mut [u8]) -> (r: BitStrMut<'a>)
        ensures
            r@ == old(bytes)@,
            final(bytes)@ == final(r.inner)@,
    {
        BitStrMut { inner: bytes }
    }

    pub fn as_bytes_mut(self) -> (r: &'a mut [u8])
        ensures
            r@ == self@,
            final(r)@ == final(self.inner)@,
    {
        self.inner
    }

    pub fn bytes_mut(self) -> (r: &'a mut [u8])
        ensures
            r@ == self@,
            final(r)@ == final(self.inner)@,
    {
        self.inner
    }

    pub fn len(&self) -> (r: usize)
        ensures
            r == self@.len(),
    {
        self.inner.len()
    }

    pub fn first_mut(self) -> (r: Option<&'a mut u8>)
        ensures
            self@.len() == 0 ==> r is None && final(self.inner)@ == self@,
            self@.len() > 0 ==> (r matches Some(x) && *x == self@[0] && final(self.inner)@
                == self@.update(0, *final(x))),
    {
        self.inner.first_mut()
    }

    pub fn last_mut(self) -> (r: Option<&'a mut u8>)
        ensures
            self@.len() == 0 ==> r is None && final(self.inner)@ == self@,
            self@.len() > 0 ==> (r matches Some(x) && *x == self@.last() && final(self.inner)@
                == self@.update(self@.len() - 1, *final(x))),
    {
        self.inner.last_mut()
    }

    pub fn split_at_mut(self, mid: usize) -> (r: (BitStrMut<'a>, BitStrMut<'a>))
        requires
            mid <= self@.len(),
        ensures
            r.0@ == self@.subrange(0, mid as int),
            r.1@ == self@.subrange(mid as int, self@.len() as int),
            final(self.inner)@ == final(r.0.inner)@ + final(r.1.inner)@,
    {
        let (a, b) = self.inner.split_at_mut(mid);
        (BitStrMut { inner: a }, BitStrMut { inner: b })
    }

    pub fn split_last_mut(self) -> (r: Option<(&'a mut u8, BitStrMut<'a>)>)
        ensures
            self@.len() == 0 ==> r is None && final(self.inner)@ == self@,
            self@.len() > 0 ==> (r matches Some(p) && *p.0 == self@.last() && p.1@
                == self@.drop_last() && final(self.inner)@ == final(p.1.inner)@.push(*final(p.0))),
    {
        let n = self.inner.len();
        if n == 0 {
            return None;
        }
        let (init, tail) = self.inner.split_at_mut(n - 1);
        match tail.first_mut() {
            Some(x) => Some((x, BitStrMut { inner: init })),
            None => None,
        }
    }

    pub fn make_ascii_uppercase(&mut self)
        ensures
            final(self)@ == old(self)@.map_values(|b: u8| upper_byte(b)),
            final(final(self).inner)@ == final(old(self).inner)@,
    {
        let n = self.inner.len();
        let mut i: usize = 0;
        while i < n
            invariant
                n == old(self)@.len() == self@.len(),
                i <= n,
                forall|j: int| 0 <= j < i ==> self@[j] == upper_byte(old(self)@[j]),
                forall|j: int| i <= j < n ==> self@[j] == old(self)@[j],
                final(self.inner)@ == final(old(self).inner)@,
            decreases n - i,
        {
            let c = to_upper(self.inner[i]);
            self.inner[i] = c;
            i += 1;
        }
        assert(self@ =~= old(self)@.map_values(|b: u8| upper_byte(b)));
    }

    pub fn make_ascii_lowercase(&mut self)
        ensures
            final(self)@ == old(self)@.map_values(|b: u8| lower_byte(b)),
            final(final(self).inner)@ == final(old(self).inner)@,
    {
        let n = self.inner.len();
        let mut i: usize = 0;
        while i < n
            invariant
                n == old(self)@.len() == self@.len(),
                i <= n,
                forall|j: int| 0 <= j < i ==> self@[j] == lower_byte(old(self)@[j]),
                forall|j: int| i <= j < n ==> self@[j] == old(self)@[j],
                final(self.inner)@ == final(old(self).inner)@,
            decreases n - i,
        {
            let c = to_lower(self.inner[i]);
            self.inner[i] = c;
            i += 1;
        }
        assert(self@ =~= old(self)@.map_values(|b: u8| lower_byte(b)));
    }
}

fn to_lower(b: u8) -> (r: u8)
    ensures
        r == lower_byte(b),
{
    if 65 <= b && b <= 90 {
        b + 32
    } else {
        b
    }
}

fn to_upper(b: u8) -> (r: u8)
    ensures
        r == upper_byte(b),
{
    if 97 <= b && b <= 122 {
        b - 32
    } else {
        b
    }
}

} // verus!
