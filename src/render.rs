use vstd::prelude::*;
use vstd::utf8::*;

use crate::bitstr::BitStr;
use crate::utf8chunks::{broken_len, chunks_of, lemma_chunks_step, lemma_valid_up_to, valid_up_to};

verus! {

broadcast use group_utf8_lib;

/// The characters that `char::escape_debug` writes for `c`.
pub uninterp spec fn escape_debug_of(c: char) -> Seq<char>;

/// Relies on char::escape_debug: the debug escape of one character.
#[verifier::external_body]
fn escape_debug(c: char) -> (r: String)
    ensures
        r@ == escape_debug_of(c),
{
    c.escape_debug().to_string()
}

/// Relies on String::push: appends one character.
#[verifier::external_body]
fn push_char(s: &mut String, c: char)
    ensures
        final(s)@ == old(s)@.push(c),
{
    s.push(c)
}

/// Lossy text of a chunk sequence: each valid run as text, then one replacement
/// character if its broken run is not empty.
pub open spec fn lossy_of(cs: Seq<(Seq<u8>, Seq<u8>)>) -> Seq<char>
    decreases cs.len(),
{
    if cs.len() == 0 {
        seq![]
    } else {
        decode_utf8(cs[0].0) + (if cs[0].1.len() > 0 {
            seq!['\u{FFFD}']
        } else {
            seq![]
        }) + lossy_of(cs.drop_first())
    }
}

/// The debug escapes of each character of `s`, in order.
pub open spec fn escaped_of(s: Seq<char>) -> Seq<char>
    decreases s.len(),
{
    if s.len() == 0 {
        seq![]
    } else {
        escape_debug_of(s[0]) + escaped_of(s.drop_first())
    }
}

/// Lower-case hexadecimal digit of `n` (below 16).
pub open spec fn hex_digit_of(n: u8) -> char {
    match n {
        0u8 => '0',
        1u8 => '1',
        2u8 => '2',
        3u8 => '3',
        4u8 => '4',
        5u8 => '5',
        6u8 => '6',
        7u8 => '7',
        8u8 => '8',
        9u8 => '9',
        10u8 => 'a',
        11u8 => 'b',
        12u8 => 'c',
        13u8 => 'd',
        14u8 => 'e',
        15u8 => 'f',
        _ => 'f',
    }
}

/// `\xHH` for one byte, two lower-case hexadecimal digits.
pub open spec fn hex_escape(b: u8) -> Seq<char> {
    seq!['\\', 'x', hex_digit_of(b / 16), hex_digit_of(b % 16)]
}

/// The hexadecimal escapes of each byte of `bs`, in order.
pub open spec fn hex_escaped(bs: Seq<u8>) -> Seq<char>
    decreases bs.len(),
{
    if bs.len() == 0 {
        seq![]
    } else {
        hex_escape(bs[0]) + hex_escaped(bs.drop_first())
    }
}

/// Debug text of a chunk sequence, without the quotes: each valid run escaped,
/// each broken byte as a hexadecimal escape.
pub open spec fn debug_body(cs: Seq<(Seq<u8>, Seq<u8>)>) -> Seq<char>
    decreases cs.len(),
{
    if cs.len() == 0 {
        seq![]
    } else {
        escaped_of(decode_utf8(cs[0].0)) + hex_escaped(cs[0].1) + debug_body(cs.drop_first())
    }
}

proof fn lemma_escaped_push(s: Seq<char>, c: char)
    ensures
        escaped_of(s.push(c)) == escaped_of(s) + escape_debug_of(c),
    decreases s.len(),
{
    assert(escaped_of(Seq::<char>::empty()) == Seq::<char>::empty());
    assert(s.push(c)[0] == if s.len() == 0 { c } else { s[0] });
    if s.len() == 0 {
        assert(s =~= Seq::<char>::empty());
        assert(s.push(c).drop_first() =~= Seq::<char>::empty());
        assert(escape_debug_of(c) + Seq::<char>::empty() =~= escape_debug_of(c));
        assert(Seq::<char>::empty() + escape_debug_of(c) =~= escape_debug_of(c));
    } else {
        lemma_escaped_push(s.drop_first(), c);
        assert(s.push(c).drop_first() =~= s.drop_first().push(c));
        assert(escaped_of(s.push(c)) =~= escaped_of(s) + escape_debug_of(c));
    }
}

proof fn lemma_hex_escaped_push(s: Seq<u8>, b: u8)
    ensures
        hex_escaped(s.push(b)) == hex_escaped(s) + hex_escape(b),
    decreases s.len(),
{
    assert(hex_escaped(Seq::<u8>::empty()) == Seq::<char>::empty());
    assert(s.push(b)[0] == if s.len() == 0 { b } else { s[0] });
    if s.len() == 0 {
        assert(s =~= Seq::<u8>::empty());
        assert(s.push(b).drop_first() =~= Seq::<u8>::empty());
        assert(hex_escape(b) + Seq::<char>::empty() =~= hex_escape(b));
        assert(Seq::<char>::empty() + hex_escape(b) =~= hex_escape(b));
    } else {
        lemma_hex_escaped_push(s.drop_first(), b);
        assert(s.push(b).drop_first() =~= s.drop_first().push(b));
        assert(hex_escaped(s.push(b)) =~= hex_escaped(s) + hex_escape(b));
    }
}

fn hex_digit(n: u8) -> (c: char)
    requires
        n < 16,
    ensures
        c == hex_digit_of(n),
{
    match n {
        0u8 => '0',
        1u8 => '1',
        2u8 => '2',
        3u8 => '3',
        4u8 => '4',
        5u8 => '5',
        6u8 => '6',
        7u8 => '7',
        8u8 => '8',
        9u8 => '9',
        10u8 => 'a',
        11u8 => 'b',
        12u8 => 'c',
        13u8 => 'd',
        14u8 => 'e',
        15u8 => 'f',
        _ => 'f',
    }
}

/// Appends to `out` the debug escape of every character of `s`.
pub fn write_escaped_str(out: &mut String, s: &str)
    ensures
        final(out)@ == old(out)@ + escaped_of(s@),
{
    let n = s.unicode_len();
    let mut i: usize = 0;
    while i < n
        invariant
            n == s@.len(),
            i <= n,
            out@ == old(out)@ + escaped_of(s@.subrange(0, i as int)),
        decreases n - i,
    {
        let c = s.get_char(i);
        let e = escape_debug(c);
        proof {
            lemma_escaped_push(s@.subrange(0, i as int), c);
            assert(s@.subrange(0, i as int).push(c) =~= s@.subrange(0, i + 1));
        }
        out.append(e.as_str());
        i += 1;
    }
    assert(s@.subrange(0, n as int) =~= s@);
}

/// Appends `\xHH` for every byte of `bs`.
fn write_hex_escaped(out: &mut String, bs: &[u8])
    ensures
        final(out)@ == old(out)@ + hex_escaped(bs@),
{
    let mut i: usize = 0;
    while i < bs.len()
        invariant
            i <= bs@.len(),
            out@ == old(out)@ + hex_escaped(bs@.subrange(0, i as int)),
        decreases bs@.len() - i,
    {
        let b = bs[i];
        push_char(out, '\\');
        push_char(out, 'x');
        push_char(out, hex_digit(b / 16));
        push_char(out, hex_digit(b % 16));
        proof {
            lemma_hex_escaped_push(bs@.subrange(0, i as int), b);
            assert(bs@.subrange(0, i as int).push(b) =~= bs@.subrange(0, i + 1));
        }
        i += 1;
    }
    assert(bs@.subrange(0, bs@.len() as int) =~= bs@);
}

impl<'a> BitStr<'a> {
    /// The lossy text of the view: valid runs as they are, one U+FFFD for each broken run.
    pub fn to_display_string(&self) -> (r: String)
        ensures
            r@ == lossy_of(chunks_of(self@)),
    {
        let mut out = String::new();
        let mut it = self.utf8_chunks();
        loop
            invariant
                lossy_of(chunks_of(self@)) == out@ + lossy_of(chunks_of(it.rest())),
            ensures
                out@ == lossy_of(chunks_of(self@)),
            decreases it.rest().len(),
        {
            let ghost before = it.rest();
            match it.next() {
                None => {
                    assert(chunks_of(it.rest()) =~= Seq::<(Seq<u8>, Seq<u8>)>::empty());
                    assert(lossy_of(chunks_of(it.rest())) =~= Seq::<char>::empty());
                    assert(out@ + Seq::<char>::empty() =~= out@);
                    break ;
                },
                Some(c) => {
                    let ghost cs = chunks_of(before);
                    assert(cs.drop_first() =~= chunks_of(it.rest()));
                    assert(cs[0] == c.view());
                    assert(decode_utf8(c.view().0) == c.valid@);
                    out.append(c.valid);
                    if c.broken.len() > 0 {
                        push_char(&mut out, '\u{FFFD}');
                    }
                },
            }
        }
        out
    }

    /// The quoted debug text of the view: valid runs with debug escapes, each broken
    /// byte as `\xHH`.
    pub fn to_debug_string(&self) -> (r: String)
        ensures
            r@ == seq!['"'] + debug_body(chunks_of(self@)) + seq!['"'],
    {
        let mut out = String::new();
        push_char(&mut out, '"');
        let mut it = self.utf8_chunks();
        loop
            invariant
                seq!['"'] + debug_body(chunks_of(self@)) == out@ + debug_body(chunks_of(it.rest())),
            ensures
                out@ == seq!['"'] + debug_body(chunks_of(self@)),
            decreases it.rest().len(),
        {
            let ghost before = it.rest();
            match it.next() {
                None => {
                    assert(chunks_of(it.rest()) =~= Seq::<(Seq<u8>, Seq<u8>)>::empty());
                    assert(debug_body(chunks_of(it.rest())) =~= Seq::<char>::empty());
                    assert(out@ + Seq::<char>::empty() =~= out@);
                    break ;
                },
                Some(c) => {
                    let ghost cs = chunks_of(before);
                    assert(cs.drop_first() =~= chunks_of(it.rest()));
                    assert(cs[0] == c.view());
                    assert(decode_utf8(c.view().0) == c.valid@);
                    write_escaped_str(&mut out, c.valid);
                    write_hex_escaped(&mut out, c.broken);
                },
            }
        }
        push_char(&mut out, '"');
        out
    }
}

/// A broken run that the decoder reports as a single invalid sequence shows as one
/// replacement character, whatever its length, followed by the valid text after it.
pub proof fn lemma_one_replacement_per_run(run: Seq<u8>, text: Seq<u8>)
    requires
        run.len() > 0,
        valid_utf8(text),
        valid_up_to(run + text) == 0,
        broken_len(run + text) == run.len(),
    ensures
        lossy_of(chunks_of(run + text)) == seq!['\u{FFFD}'] + decode_utf8(text),
{
    let b = run + text;
    lemma_valid_up_to(b);
    lemma_chunks_step(b);
    assert(b.subrange(0, 0) =~= Seq::<u8>::empty());
    assert(b.subrange(0, run.len() as int) =~= run);
    assert(b.subrange(run.len() as int, b.len() as int) =~= text);
    let cs = chunks_of(b);
    assert(cs.drop_first() == chunks_of(text));
    assert(decode_utf8(Seq::<u8>::empty()) =~= Seq::<char>::empty());
    assert(cs[0].1 == run);
    assert(lossy_of(cs) == decode_utf8(cs[0].0) + seq!['\u{FFFD}'] + lossy_of(chunks_of(text)));
    if text.len() == 0 {
        assert(chunks_of(text) =~= Seq::<(Seq<u8>, Seq<u8>)>::empty());
        assert(lossy_of(chunks_of(text)) =~= Seq::<char>::empty());
        assert(decode_utf8(text) =~= Seq::<char>::empty());
        assert(lossy_of(cs) =~= seq!['\u{FFFD}']);
    } else {
        let ts = chunks_of(text);
        assert(ts.drop_first() =~= Seq::<(Seq<u8>, Seq<u8>)>::empty());
        assert(lossy_of(ts.drop_first()) =~= Seq::<char>::empty());
        assert(lossy_of(ts) =~= decode_utf8(text));
        assert(lossy_of(cs) =~= seq!['\u{FFFD}'] + decode_utf8(text));
    }
}

} // verus!
