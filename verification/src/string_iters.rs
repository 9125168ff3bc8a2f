use vstd::prelude::*;

use crate::callable::{call_spec, CallM, Callable};
use crate::error::Error;
use crate::output::{Out, OutM};
use crate::value::{KString, ValM, Value};

verus! {

/// The first index at or after `from` holding `c`, if any.
pub open spec fn find_char(s: Seq<char>, from: int, c: char) -> Option<int>
    decreases s.len() - from,
{
    if from < 0 || from >= s.len() {
        None
    } else if s[from] == c {
        Some(from)
    } else {
        find_char(s, from + 1, c)
    }
}

/// The first index at or after `from` where `pat` occurs as a sub-sequence,
/// if any; meaningful for a non-empty `pat`.
pub open spec fn find_sub(s: Seq<char>, pat: Seq<char>, from: int) -> Option<int>
    decreases s.len() - from,
{
    if from < 0 || from + pat.len() > s.len() {
        None
    } else if pat.len() == 0 {
        Some(from)
    } else if s.subrange(from, from + pat.len() as int) == pat {
        Some(from)
    } else {
        find_sub(s, pat, from + 1)
    }
}

/// The UTF-8 encoding of one character: scalar values below 0x80 are one
/// byte, below 0x800 two, below 0x10000 three, and the rest four, with the
/// leading byte carrying the high bits and each continuation byte carrying
/// six more.
pub open spec fn utf8_char(c: char) -> Seq<u8> {
    let cp = c as u32;
    if cp < 0x80 {
        seq![cp as u8]
    } else if cp < 0x800 {
        seq![(0xC0 + cp / 0x40) as u8, (0x80 + cp % 0x40) as u8]
    } else if cp < 0x10000 {
        seq![
            (0xE0 + cp / 0x1000) as u8,
            (0x80 + (cp / 0x40) % 0x40) as u8,
            (0x80 + cp % 0x40) as u8,
        ]
    } else {
        seq![
            (0xF0 + cp / 0x40000) as u8,
            (0x80 + (cp / 0x1000) % 0x40) as u8,
            (0x80 + (cp / 0x40) % 0x40) as u8,
            (0x80 + cp % 0x40) as u8,
        ]
    }
}

/// The UTF-8 encoding of a character sequence.
pub open spec fn utf8_of(s: Seq<char>) -> Seq<u8>
    decreases s.len(),
{
    if s.len() == 0 {
        Seq::empty()
    } else {
        utf8_of(s.drop_last()) + utf8_char(s.last())
    }
}

/// Appends the UTF-8 bytes of one character.
fn push_utf8(out: &mut Vec<u8>, c: char)
    ensures
        final(out)@ == old(out)@ + utf8_char(c),
{
    let ghost base = out@;
    let cp = c as u32;
    if cp < 0x80 {
        out.push(cp as u8);
        proof {
            assert(out@ =~= base + utf8_char(c));
        }
    } else if cp < 0x800 {
        out.push((0xC0 + cp / 0x40) as u8);
        out.push((0x80 + cp % 0x40) as u8);
        proof {
            assert(out@ =~= base + utf8_char(c));
        }
    } else if cp < 0x10000 {
        out.push((0xE0 + cp / 0x1000) as u8);
        out.push((0x80 + (cp / 0x40) % 0x40) as u8);
        out.push((0x80 + cp % 0x40) as u8);
        proof {
            assert(out@ =~= base + utf8_char(c));
        }
    } else {
        out.push((0xF0 + cp / 0x40000) as u8);
        out.push((0x80 + (cp / 0x1000) % 0x40) as u8);
        out.push((0x80 + (cp / 0x40) % 0x40) as u8);
        out.push((0x80 + cp % 0x40) as u8);
        proof {
            assert(out@ =~= base + utf8_char(c));
        }
    }
}

/// Encodes a character sequence into its UTF-8 bytes.
fn encode_utf8(chars: &Vec<char>) -> (r: Vec<u8>)
    ensures
        r@ == utf8_of(chars@),
{
    let mut out: Vec<u8> = Vec::new();
    let mut i: usize = 0;
    proof {
        assert(utf8_of(chars@.subrange(0, 0)) =~= Seq::<u8>::empty());
    }
    while i < chars.len()
        invariant
            i <= chars@.len(),
            out@ == utf8_of(chars@.subrange(0, i as int)),
        decreases chars@.len() - i,
    {
        push_utf8(&mut out, chars[i]);
        proof {
            assert(chars@.subrange(0, i + 1).drop_last() =~= chars@.subrange(0, i as int));
            assert(chars@.subrange(0, i + 1).last() == chars@[i as int]);
        }
        i = i + 1;
    }
    proof {
        assert(chars@.subrange(0, chars@.len() as int) =~= chars@);
    }
    out
}

/// The number of characters in the first grapheme cluster of a character
/// sequence; zero only for the empty sequence.
pub uninterp spec fn grapheme_len_of(s: Seq<char>) -> nat;

/// Relies on `UnicodeSegmentation::graphemes` of unicode-segmentation: the
/// first cluster of a non-empty string is non-empty and no longer than the
/// string, and the segmentation depends on the characters alone.
#[verifier::external_body]
fn first_grapheme_len(chars: &Vec<char>, from: usize) -> (n: usize)
    requires
        from <= chars@.len(),
    ensures
        n == grapheme_len_of(chars@.subrange(from as int, chars@.len() as int)),
        from < chars@.len() ==> 1 <= n <= chars@.len() - from,
        from == chars@.len() ==> n == 0,
{
    let s: String = chars[from..].iter().collect();
    match unicode_segmentation::UnicodeSegmentation::graphemes(s.as_str(), true).next() {
        Some(g) => g.chars().count(),
        None => 0,
    }
}

/// An iterator that outputs the individual bytes of a string's UTF-8 form.
#[derive(Debug)]
pub struct Bytes {
    pub bytes: Vec<u8>,
    pub index: usize,
}

/// The remaining outputs of a byte iterator.
pub open spec fn bytes_rest(bytes: Seq<u8>, index: int) -> Seq<OutM> {
    Seq::new(
        if 0 <= index <= bytes.len() {
            (bytes.len() - index) as nat
        } else {
            0nat
        },
        |k: int| OutM::V(ValM::Num(bytes[index + k] as i64)),
    )
}

impl Bytes {
    /// Creates a new [Bytes] iterator over the string's UTF-8 bytes.
    pub fn new(input: KString) -> (r: Bytes)
        ensures
            r.bytes@ == utf8_of(input@),
            r.index == 0,
    {
        Bytes { bytes: encode_utf8(&input.chars), index: 0 }
    }

    /// An independent cursor at the same position.
    pub fn make_copy(&self) -> (r: Bytes)
        ensures
            r.bytes@ == self.bytes@,
            r.index == self.index,
    {
        let mut bytes: Vec<u8> = Vec::new();
        let mut i: usize = 0;
        while i < self.bytes.len()
            invariant
                i <= self.bytes.len(),
                bytes@ == self.bytes@.subrange(0, i as int),
            decreases self.bytes.len() - i,
        {
            bytes.push(self.bytes[i]);
            i = i + 1;
        }
        proof {
            assert(bytes@ =~= self.bytes@);
        }
        Bytes { bytes, index: self.index }
    }

    /// Yields the next byte as a Number, advancing the cursor.
    pub fn next(&mut self) -> (r: Option<Out>)
        ensures
            final(self).bytes@ == old(self).bytes@,
            match r {
                None => bytes_rest(old(self).bytes@, old(self).index as int).len() == 0
                    && final(self).index == old(self).index,
                Some(o) => {
                    let rest = bytes_rest(old(self).bytes@, old(self).index as int);
                    rest.len() > 0 && o.dv() == rest[0] && bytes_rest(
                        final(self).bytes@,
                        final(self).index as int,
                    ) == rest.drop_first()
                },
            },
    {
        if self.index < self.bytes.len() {
            let b = self.bytes[self.index];
            self.index = self.index + 1;
            proof {
                assert(bytes_rest(self.bytes@, self.index as int) =~= bytes_rest(
                    old(self).bytes@,
                    old(self).index as int,
                ).drop_first());
            }
            Some(Out::Value(Value::Number(b as i64)))
        } else {
            None
        }
    }

    /// A lower and optional upper bound on the remaining outputs.
    pub fn size_hint(&self) -> (r: (usize, Option<usize>))
        ensures
            r.0 == bytes_rest(self.bytes@, self.index as int).len(),
            r.1 == Some(r.0),
    {
        let remaining = if self.index <= self.bytes.len() {
            self.bytes.len() - self.index
        } else {
            0
        };
        (remaining, Some(remaining))
    }
}

/// An iterator that yields the lines contained in a string.
///
/// - Lines end with either `\r\n` or `\n`.
/// - Line end characters are not included in the resulting output.
/// - Empty lines are yielded as empty strings.
#[derive(Debug)]
pub struct Lines {
    pub input: KString,
    pub start: usize,
}

/// The remaining outputs of a line iterator: each line as a string, the
/// terminators consumed and excluded, nothing for a trailing empty remainder.
pub open spec fn lines_rest(s: Seq<char>, start: int) -> Seq<OutM>
    decreases s.len() + 2 - start,
    via lines_rest_dec
{
    if start < 0 || start >= s.len() {
        Seq::empty()
    } else {
        let nl = find_char(s, start, '\n');
        let end_bytes: (int, int) = match nl {
            Some(e) => if e > start && s[e - 1] == '\r' {
                (e - 1, 2)
            } else {
                (e, 1)
            },
            None => (s.len() as int, 1),
        };
        seq![OutM::V(ValM::Str(s.subrange(start, end_bytes.0)))] + lines_rest(
            s,
            end_bytes.0 + end_bytes.1,
        )
    }
}

#[via_fn]
proof fn lines_rest_dec(s: Seq<char>, start: int) {
    if 0 <= start < s.len() {
        lemma_find_char_props(s, start, '\n');
    }
}

/// `find_char` stays within bounds and finds a matching character.
pub proof fn lemma_find_char_props(s: Seq<char>, from: int, c: char)
    requires
        0 <= from,
    ensures
        match find_char(s, from, c) {
            Some(e) => from <= e < s.len() && s[e] == c && forall|j: int|
                from <= j < e ==> s[j] != c,
            None => forall|j: int| from <= j < s.len() ==> s[j] != c,
        },
    decreases s.len() - from,
{
    if from < s.len() && s[from] != c {
        lemma_find_char_props(s, from + 1, c);
    }
}

impl Lines {
    /// Creates a new [Lines] iterator.
    pub fn new(input: KString) -> (r: Lines)
        ensures
            r.input@ == input@,
            r.start == 0,
    {
        Lines { input, start: 0 }
    }

    /// An independent cursor at the same position.
    pub fn make_copy(&self) -> (r: Lines)
        ensures
            r.input@ == self.input@,
            r.start == self.start,
    {
        Lines { input: self.input.dup(), start: self.start }
    }

    /// Yields the next line as a string value, advancing past its
    /// terminator.
    pub fn next(&mut self) -> (r: Option<Out>)
        ensures
            final(self).input@ == old(self).input@,
            match r {
                None => lines_rest(old(self).input@, old(self).start as int).len() == 0
                    && final(self).start == old(self).start,
                Some(o) => {
                    let rest = lines_rest(old(self).input@, old(self).start as int);
                    rest.len() > 0 && o.dv() == rest[0] && lines_rest(
                        final(self).input@,
                        final(self).start as int,
                    ) == rest.drop_first()
                },
            },
    {
        let ghost s = self.input@;
        let start = self.start;
        if start < self.input.len() {
            let nl = find_char_at(&self.input, start, '\n');
            proof {
                lemma_find_char_props(s, start as int, '\n');
            }
            let (end, newline_bytes): (usize, usize) = match nl {
                Some(e) => {
                    if e > start && char_at(&self.input, e - 1) == '\r' {
                        (e - 1, 2)
                    } else {
                        (e, 1)
                    }
                },
                None => (self.input.len(), 1),
            };
            let piece = self.input.with_bounds(start, end);
            self.start = if end <= usize::MAX - newline_bytes {
                end + newline_bytes
            } else {
                usize::MAX
            };
            proof {
                let nxt = end + newline_bytes as int;
                assert(lines_rest(s, start as int) =~= seq![
                    OutM::V(ValM::Str(s.subrange(start as int, end as int))),
                ] + lines_rest(s, nxt));
                if self.start as int != nxt {
                    assert(lines_rest(s, nxt) =~= Seq::<OutM>::empty());
                    assert(lines_rest(s, self.start as int) =~= Seq::<OutM>::empty());
                }
                assert(lines_rest(s, self.start as int) =~= lines_rest(
                    s,
                    start as int,
                ).drop_first());
            }
            Some(Out::Value(Value::Str(piece)))
        } else {
            None
        }
    }

    /// A lower and optional upper bound on the remaining outputs: at least
    /// one line remains while characters do, the upper bound is the count
    /// of remaining characters, and there are never more lines than that.
    pub fn size_hint(&self) -> (r: (usize, Option<usize>))
        ensures
            r.0 <= lines_rest(self.input@, self.start as int).len(),
            r.0 >= 1 <==> lines_rest(self.input@, self.start as int).len() >= 1,
            r.0 == (if self.start < self.input@.len() {
                1int
            } else {
                0int
            }),
            r.1 is Some,
            r.1->Some_0 as int == (if self.start <= self.input@.len() {
                self.input@.len() - self.start
            } else {
                0int
            }),
            lines_rest(self.input@, self.start as int).len() <= r.1->Some_0,
    {
        let remaining = if self.start < self.input.len() {
            1
        } else {
            0
        };
        proof {
            if self.start < self.input@.len() {
                lemma_lines_rest_bounds(self.input@, self.start as int);
            }
            lemma_lines_rest_count(self.input@, self.start as int);
        }
        (remaining, Some(if self.start <= self.input.len() {
            self.input.len() - self.start
        } else {
            0
        }))
    }
}

/// A non-exhausted line iterator yields at least one line.
pub proof fn lemma_lines_rest_bounds(s: Seq<char>, start: int)
    requires
        0 <= start < s.len(),
    ensures
        lines_rest(s, start).len() >= 1,
{
}

/// Every line consumes at least one character, so there are never more
/// remaining lines than remaining characters.
pub proof fn lemma_lines_rest_count(s: Seq<char>, start: int)
    requires
        0 <= start,
    ensures
        lines_rest(s, start).len() <= (if start <= s.len() {
            s.len() - start
        } else {
            0int
        }),
    decreases s.len() + 2 - start,
{
    if start < s.len() {
        lemma_find_char_props(s, start, '\n');
        let nl = find_char(s, start, '\n');
        let end_bytes: (int, int) = match nl {
            Some(e) => if e > start && s[e - 1] == '\r' {
                (e - 1, 2)
            } else {
                (e, 1)
            },
            None => (s.len() as int, 1),
        };
        lemma_lines_rest_count(s, end_bytes.0 + end_bytes.1);
    }
}

/// The character at a position.
fn char_at(s: &KString, i: usize) -> (c: char)
    requires
        i < s@.len(),
    ensures
        c == s@[i as int],
{
    s.chars[i]
}

/// The first position at or after `from` holding `c`, if any.
#[verifier::loop_isolation(false)]
fn find_char_at(s: &KString, from: usize, c: char) -> (r: Option<usize>)
    requires
        from <= s@.len(),
    ensures
        match r {
            Some(e) => Some(e as int) == find_char(s@, from as int, c),
            None => find_char(s@, from as int, c) is None,
        },
{
    let mut i = from;
    while i < s.chars.len()
        invariant
            from <= i <= s@.len(),
            find_char(s@, from as int, c) == find_char(s@, i as int, c),
        decreases s@.len() - i,
    {
        if s.chars[i] == c {
            return Some(i);
        }
        i = i + 1;
    }
    None
}

/// An iterator that splits up a string into parts, separated by a provided
/// pattern. The pattern is consumed between parts; an empty pattern matches
/// before every position and the iterator then repeats the empty string.
#[derive(Debug)]
pub struct Split {
    pub input: KString,
    pub pattern: KString,
    pub start: usize,
}

/// The remaining outputs of a split iterator with a non-empty pattern.
pub open spec fn split_rest(s: Seq<char>, pat: Seq<char>, start: int) -> Seq<OutM>
    decreases s.len() + 2 - start,
    via split_rest_dec
{
    if start < 0 || start > s.len() || pat.len() == 0 {
        Seq::empty()
    } else {
        let e = match find_sub(s, pat, start) {
            Some(e) => e,
            None => s.len() as int,
        };
        let nxt: int = if e + pat.len() <= s.len() + 2 {
            e + pat.len() as int
        } else {
            s.len() as int + 2
        };
        seq![OutM::V(ValM::Str(s.subrange(start, e)))] + split_rest(s, pat, nxt)
    }
}

#[via_fn]
proof fn split_rest_dec(s: Seq<char>, pat: Seq<char>, start: int) {
    if 0 <= start <= s.len() && pat.len() > 0 {
        lemma_find_sub_props(s, pat, start);
    }
}

/// `find_sub` stays within bounds and finds a matching occurrence.
pub proof fn lemma_find_sub_props(s: Seq<char>, pat: Seq<char>, from: int)
    requires
        0 <= from,
    ensures
        match find_sub(s, pat, from) {
            Some(e) => from <= e && e + pat.len() <= s.len() && s.subrange(
                e,
                e + pat.len() as int,
            ) == pat && forall|j: int|
                #![trigger s.subrange(j, j + pat.len() as int)]
                from <= j < e ==> s.subrange(j, j + pat.len() as int) != pat,
            None => forall|j: int|
                #![trigger s.subrange(j, j + pat.len() as int)]
                from <= j && j + pat.len() <= s.len() ==> s.subrange(j, j + pat.len() as int)
                    != pat,
        },
    decreases s.len() - from,
{
    if pat.len() > 0 && from + pat.len() <= s.len() && s.subrange(
        from,
        from + pat.len() as int,
    ) != pat {
        lemma_find_sub_props(s, pat, from + 1);
    }
}

/// Every part after the first begins past a consumed separator, so there
/// are never more remaining parts than remaining characters plus one.
pub proof fn lemma_split_rest_count(s: Seq<char>, pat: Seq<char>, start: int)
    requires
        0 <= start,
        pat.len() > 0,
    ensures
        split_rest(s, pat, start).len() <= (if start <= s.len() {
            s.len() - start + 1
        } else {
            0int
        }),
    decreases s.len() + 2 - start,
{
    if start <= s.len() {
        lemma_find_sub_props(s, pat, start);
        let e = match find_sub(s, pat, start) {
            Some(e) => e,
            None => s.len() as int,
        };
        let nxt: int = if e + pat.len() <= s.len() + 2 {
            e + pat.len() as int
        } else {
            s.len() as int + 2
        };
        lemma_split_rest_count(s, pat, nxt);
    }
}

impl Split {
    /// Creates a new [Split] iterator.
    pub fn new(input: KString, pattern: KString) -> (r: Split)
        ensures
            r.input@ == input@,
            r.pattern@ == pattern@,
            r.start == 0,
    {
        Split { input, pattern, start: 0 }
    }

    /// An independent cursor at the same position.
    pub fn make_copy(&self) -> (r: Split)
        ensures
            r.input@ == self.input@,
            r.pattern@ == self.pattern@,
            r.start == self.start,
    {
        Split { input: self.input.dup(), pattern: self.pattern.dup(), start: self.start }
    }

    /// Yields the next part as a string value, consuming the separator.
    /// This method asks for a non-empty pattern; the handle layer serves
    /// the empty pattern by repeating the empty string without advancing.
    pub fn next(&mut self) -> (r: Option<Out>)
        requires
            old(self).pattern@.len() > 0,
            old(self).input@.len() + old(self).pattern@.len() < usize::MAX,
        ensures
            final(self).input@ == old(self).input@,
            final(self).pattern@ == old(self).pattern@,
            match r {
                None => split_rest(
                    old(self).input@,
                    old(self).pattern@,
                    old(self).start as int,
                ).len() == 0 && final(self).start == old(self).start,
                Some(o) => {
                    let rest = split_rest(
                        old(self).input@,
                        old(self).pattern@,
                        old(self).start as int,
                    );
                    rest.len() > 0 && o.dv() == rest[0] && split_rest(
                        final(self).input@,
                        final(self).pattern@,
                        final(self).start as int,
                    ) == rest.drop_first()
                },
            },
    {
        let ghost s = self.input@;
        let ghost pat = self.pattern@;
        let start = self.start;
        if start <= self.input.len() {
            let found = find_sub_at(&self.input, &self.pattern, start);
            let end = match found {
                Some(e) => e,
                None => self.input.len(),
            };
            proof {
                lemma_find_sub_props(s, pat, start as int);
            }
            let piece = self.input.with_bounds(start, end);
            self.start = end + self.pattern.len();
            proof {
                let nxt: int = if end + pat.len() <= s.len() + 2 {
                    end + pat.len() as int
                } else {
                    s.len() as int + 2
                };
                assert(split_rest(s, pat, start as int) =~= seq![
                    OutM::V(ValM::Str(s.subrange(start as int, end as int))),
                ] + split_rest(s, pat, nxt));
                if self.start as int != nxt {
                    assert(split_rest(s, pat, nxt) =~= Seq::<OutM>::empty());
                    assert(split_rest(s, pat, self.start as int) =~= Seq::<OutM>::empty());
                }
                assert(split_rest(s, pat, self.start as int) =~= split_rest(
                    s,
                    pat,
                    start as int,
                ).drop_first());
            }
            Some(Out::Value(Value::Str(piece)))
        } else {
            None
        }
    }

    /// A lower and optional upper bound on the remaining outputs: at least
    /// one part remains while the cursor is in range, and there are never
    /// more parts than remaining characters plus one.
    pub fn size_hint(&self) -> (r: (usize, Option<usize>))
        requires
            self.pattern@.len() > 0,
        ensures
            r.0 <= split_rest(self.input@, self.pattern@, self.start as int).len(),
            r.0 >= 1 <==> split_rest(self.input@, self.pattern@, self.start as int).len() >= 1,
            self.input@.len() + self.pattern@.len() < usize::MAX ==> r.1 is Some && split_rest(
                self.input@,
                self.pattern@,
                self.start as int,
            ).len() <= r.1->Some_0,
    {
        let remaining = if self.start <= self.input.len() {
            1
        } else {
            0
        };
        proof {
            if self.start <= self.input@.len() {
                assert(split_rest(self.input@, self.pattern@, self.start as int).len() >= 1);
            }
            lemma_split_rest_count(self.input@, self.pattern@, self.start as int);
        }
        let upper = if self.start <= self.input.len() {
            let rem = self.input.len() - self.start;
            if rem < usize::MAX {
                rem + 1
            } else {
                usize::MAX
            }
        } else {
            0
        };
        (remaining, Some(upper))
    }
}

/// Whether the pattern occurs at position `at`.
#[verifier::loop_isolation(false)]
fn sub_matches(s: &KString, pat: &KString, at: usize) -> (r: bool)
    requires
        at + pat@.len() <= s@.len(),
    ensures
        r == (s@.subrange(at as int, at + pat@.len() as int) == pat@),
{
    let total = s.chars.len();
    let mut j: usize = 0;
    while j < pat.chars.len()
        invariant
            j <= pat@.len(),
            at + pat@.len() <= s@.len(),
            total == s@.len(),
            forall|t: int| 0 <= t < j ==> s@[at + t] == pat@[t],
        decreases pat@.len() - j,
    {
        if s.chars[at + j] != pat.chars[j] {
            proof {
                assert(s@.subrange(at as int, at + pat@.len() as int)[j as int] != pat@[j as int]);
            }
            return false;
        }
        j = j + 1;
    }
    proof {
        assert(s@.subrange(at as int, at + pat@.len() as int) =~= pat@);
    }
    true
}

/// The first position at or after `from` where the pattern occurs, if any.
#[verifier::loop_isolation(false)]
fn find_sub_at(s: &KString, pat: &KString, from: usize) -> (r: Option<usize>)
    requires
        from <= s@.len(),
    ensures
        match r {
            Some(e) => Some(e as int) == find_sub(s@, pat@, from as int),
            None => find_sub(s@, pat@, from as int) is None,
        },
{
    if pat.chars.len() > s.chars.len() {
        proof {
            assert(find_sub(s@, pat@, from as int) is None);
        }
        return None;
    }
    if pat.chars.len() == 0 {
        return Some(from);
    }
    let limit = s.chars.len() - pat.chars.len();
    let mut i = from;
    while i <= limit
        invariant
            from <= i,
            i <= s@.len() + 1,
            limit == s@.len() - pat@.len(),
            pat@.len() <= s@.len(),
            find_sub(s@, pat@, from as int) == find_sub(s@, pat@, i as int),
        decreases s@.len() + 1 - i,
    {
        if sub_matches(s, pat, i) {
            return Some(i);
        }
        i = i + 1;
    }
    None
}

/// An iterator over a string's grapheme clusters, each yielded as a string.
#[derive(Debug)]
pub struct Graphemes {
    pub input: KString,
    pub pos: usize,
}

/// The remaining outputs of a grapheme iterator: the segmentation walks the
/// string cluster by cluster, each cluster non-empty.
pub open spec fn graphemes_rest(s: Seq<char>, pos: int) -> Seq<OutM>
    decreases s.len() - pos,
{
    if pos < 0 || pos >= s.len() {
        Seq::empty()
    } else {
        let n0 = grapheme_len_of(s.subrange(pos, s.len() as int)) as int;
        let n = if n0 < 1 {
            1
        } else if n0 > s.len() - pos {
            s.len() - pos
        } else {
            n0
        };
        seq![OutM::V(ValM::Str(s.subrange(pos, pos + n)))] + graphemes_rest(s, pos + n)
    }
}

/// Every cluster holds at least one character, so there are never more
/// remaining clusters than remaining characters.
pub proof fn lemma_graphemes_rest_count(s: Seq<char>, pos: int)
    ensures
        graphemes_rest(s, pos).len() <= (if 0 <= pos <= s.len() {
            s.len() - pos
        } else {
            0int
        }),
    decreases s.len() - pos,
{
    if 0 <= pos < s.len() {
        let n0 = grapheme_len_of(s.subrange(pos, s.len() as int)) as int;
        let n = if n0 < 1 {
            1
        } else if n0 > s.len() - pos {
            s.len() - pos
        } else {
            n0
        };
        lemma_graphemes_rest_count(s, pos + n);
    }
}

impl Graphemes {
    /// Creates a new [Graphemes] iterator.
    pub fn new(input: KString) -> (r: Graphemes)
        ensures
            r.input@ == input@,
            r.pos == 0,
    {
        Graphemes { input, pos: 0 }
    }

    /// An independent cursor at the same position.
    pub fn make_copy(&self) -> (r: Graphemes)
        ensures
            r.input@ == self.input@,
            r.pos == self.pos,
    {
        Graphemes { input: self.input.dup(), pos: self.pos }
    }

    /// Yields the next grapheme cluster as a string value.
    pub fn next(&mut self) -> (r: Option<Out>)
        ensures
            final(self).input@ == old(self).input@,
            match r {
                None => graphemes_rest(old(self).input@, old(self).pos as int).len() == 0
                    && final(self).pos == old(self).pos,
                Some(o) => {
                    let rest = graphemes_rest(old(self).input@, old(self).pos as int);
                    rest.len() > 0 && o.dv() == rest[0] && graphemes_rest(
                        final(self).input@,
                        final(self).pos as int,
                    ) == rest.drop_first()
                },
            },
    {
        let ghost s = self.input@;
        let pos = self.pos;
        if pos < self.input.len() {
            let n = first_grapheme_len(&self.input.chars, pos);
            let piece = self.input.with_bounds(pos, pos + n);
            self.pos = pos + n;
            proof {
                assert(graphemes_rest(s, self.pos as int) =~= graphemes_rest(
                    s,
                    pos as int,
                ).drop_first());
            }
            Some(Out::Value(Value::Str(piece)))
        } else {
            None
        }
    }

    /// A lower and optional upper bound on the remaining outputs: at least
    /// one cluster remains while characters do, the upper bound is the
    /// count of remaining characters, and every cluster holds at least one.
    pub fn size_hint(&self) -> (r: (usize, Option<usize>))
        ensures
            r.0 <= graphemes_rest(self.input@, self.pos as int).len(),
            r.0 >= 1 <==> graphemes_rest(self.input@, self.pos as int).len() >= 1,
            r.1 is Some,
            graphemes_rest(self.input@, self.pos as int).len() <= r.1->Some_0,
    {
        let remaining: usize = if self.pos < self.input.len() {
            1
        } else {
            0
        };
        proof {
            lemma_graphemes_rest_count(self.input@, self.pos as int);
        }
        (remaining, Some(if self.pos <= self.input.len() {
            self.input.len() - self.pos
        } else {
            0
        }))
    }
}

/// The length the model uses for the grapheme cluster at a position: the
/// segmentation's answer, clamped into the range the segmentation itself
/// guarantees.
pub open spec fn glen_at(s: Seq<char>, pos: int) -> int {
    let g0 = grapheme_len_of(s.subrange(pos, s.len() as int)) as int;
    if g0 < 1 {
        1
    } else if g0 > s.len() - pos {
        s.len() - pos
    } else {
        g0
    }
}

/// What scanning for the first accepted grapheme cluster finds: the cluster
/// and its position, the length of the last cluster of a refused remainder,
/// or the first fault the predicate raises.
pub ghost enum SwScan {
    Found { at: int, glen: int },
    NotFound { lastg: int },
    Fault { e: Error },
}

/// Folds a later cluster length into a scan that found nothing.
pub open spec fn sw_combine(r: SwScan, lg: int) -> SwScan {
    match r {
        SwScan::NotFound { lastg } => SwScan::NotFound {
            lastg: if lastg == 0 {
                lg
            } else {
                lastg
            },
        },
        other => other,
    }
}

/// Scans the clusters from `pos` for the first one the predicate accepts.
/// A non-boolean answer is a kind fault; a fault from the predicate is
/// passed on under this iterator's name.
pub open spec fn splitw_scan(s: Seq<char>, f: CallM, pos: int) -> SwScan
    decreases s.len() - pos,
{
    if pos < 0 || pos >= s.len() {
        SwScan::NotFound { lastg: 0 }
    } else {
        let g = glen_at(s, pos);
        match call_spec(f, seq![ValM::Str(s.subrange(pos, pos + g))]) {
            Ok(ValM::Bool(true)) => SwScan::Found { at: pos, glen: g },
            Ok(ValM::Bool(false)) => sw_combine(splitw_scan(s, f, pos + g), g),
            Ok(other) => SwScan::Fault {
                e: Error::TypeMismatch {
                    expected: crate::error::Expectation::BoolFromPredicate,
                    found: crate::value::kind_of(other),
                },
            },
            Err(e) => SwScan::Fault {
                e: Error::Prefixed { context: crate::error::Ctx::StringSplit, inner: Box::new(e) },
            },
        }
    }
}

/// A found cluster lies at or after the scan start, within the string, and
/// is non-empty; a refused remainder remembers a positive cluster length.
pub proof fn lemma_splitw_scan_props(s: Seq<char>, f: CallM, pos: int)
    requires
        0 <= pos,
    ensures
        match splitw_scan(s, f, pos) {
            SwScan::Found { at, glen } => pos <= at < s.len() && 1 <= glen <= s.len() - at,
            SwScan::NotFound { lastg } => lastg == 0 ==> pos >= s.len(),
            SwScan::Fault { .. } => pos < s.len(),
        },
    decreases s.len() - pos,
{
    if pos < s.len() {
        let g = glen_at(s, pos);
        lemma_splitw_scan_props(s, f, pos + g);
    }
}

/// The remaining outputs of a predicate-split iterator: the pieces between
/// accepted clusters, the accepted clusters consumed, a fault cutting the
/// stream short.
pub open spec fn splitw_rest(s: Seq<char>, f: CallM, start: int) -> Seq<OutM>
    decreases s.len() + 2 - start,
    via splitw_rest_dec
{
    if start < 0 || start >= s.len() {
        Seq::empty()
    } else {
        match splitw_scan(s, f, start) {
            SwScan::Fault { e } => seq![OutM::E(e)],
            SwScan::Found { at, glen } => {
                let nxt: int = if at + glen <= s.len() + 2 {
                    at + glen
                } else {
                    s.len() as int + 2
                };
                seq![OutM::V(ValM::Str(s.subrange(start, at)))] + splitw_rest(s, f, nxt)
            },
            SwScan::NotFound { .. } => seq![OutM::V(ValM::Str(s.subrange(start, s.len() as int)))],
        }
    }
}

#[via_fn]
proof fn splitw_rest_dec(s: Seq<char>, f: CallM, start: int) {
    if 0 <= start < s.len() {
        lemma_splitw_scan_props(s, f, start);
    }
}

/// An iterator that splits up a string into parts, separated at each
/// character cluster a predicate callable accepts; the accepted cluster is
/// consumed. A fault from the predicate, or a non-boolean answer, comes out
/// as a fault output rather than aborting the whole iteration.
#[derive(Debug)]
pub struct SplitWith {
    pub input: KString,
    pub predicate: Callable,
    pub start: usize,
}

impl SplitWith {
    /// Creates a new [SplitWith] iterator.
    pub fn new(input: KString, predicate: Callable) -> (r: SplitWith)
        ensures
            r.input@ == input@,
            r.predicate.dv() == predicate.dv(),
            r.start == 0,
    {
        SplitWith { input, predicate, start: 0 }
    }

    /// An independent cursor at the same position, sharing the predicate's
    /// behaviour.
    pub fn make_copy(&self) -> (r: SplitWith)
        ensures
            r.input@ == self.input@,
            r.predicate.dv() == self.predicate.dv(),
            r.start == self.start,
        decreases self, 0int,
    {
        SplitWith { input: self.input.dup(), predicate: self.predicate.dup(), start: self.start }
    }

    /// Yields the next piece, or the first fault the predicate raises.
    #[verifier::loop_isolation(false)]
    pub fn next(&mut self) -> (r: Option<Out>)
        ensures
            final(self).input@ == old(self).input@,
            final(self).predicate.dv() == old(self).predicate.dv(),
            match r {
                None => splitw_rest(old(self).input@, old(self).predicate.dv(), old(self).start as int).len()
                    == 0 && final(self).start == old(self).start,
                Some(o) => {
                    let rest = splitw_rest(
                        old(self).input@,
                        old(self).predicate.dv(),
                        old(self).start as int,
                    );
                    rest.len() > 0 && o.dv() == rest[0] && splitw_rest(
                        final(self).input@,
                        final(self).predicate.dv(),
                        final(self).start as int,
                    ) == rest.drop_first()
                },
            },
    {
        let ghost s = self.input@;
        let ghost f = self.predicate.dv();
        let start = self.start;
        let total = self.input.len();
        if start >= total {
            return None;
        }
        let mut pos = start;
        let mut lastg: usize = 0;
        loop
            invariant
                start <= pos,
                start < total,
                pos <= total,
                total == s.len(),
                self.input@ == s,
                self.predicate.dv() == f,
                self.start == start,
                splitw_scan(s, f, start as int) == sw_combine(
                    splitw_scan(s, f, pos as int),
                    lastg as int,
                ),
                pos > start ==> lastg >= 1,
            decreases total - pos,
        {
            if pos >= total {
                let piece = self.input.with_bounds(start, total);
                self.start = if lastg <= usize::MAX - total {
                    total + lastg
                } else {
                    usize::MAX
                };
                proof {
                    assert(splitw_rest(s, f, start as int) =~= seq![
                        OutM::V(ValM::Str(s.subrange(start as int, s.len() as int))),
                    ]);
                    assert(splitw_rest(s, f, self.start as int) =~= Seq::<OutM>::empty());
                }
                return Some(Out::Value(Value::Str(piece)));
            }
            let gl = first_grapheme_len(&self.input.chars, pos);
            proof {
                assert(gl as int == glen_at(s, pos as int));
            }
            let cluster = self.input.with_bounds(pos, pos + gl);
            let mut args: Vec<Value> = Vec::new();
            args.push(Value::Str(cluster));
            proof {
                crate::value::lemma_seq_dv_index(args@, 0);
                assert(crate::value::seq_dv(args@) =~= seq![args@[0].dv()]);
            }
            match crate::callable::run_callable(&self.predicate, args) {
                Ok(Value::Bool(true)) => {
                    let piece = self.input.with_bounds(start, pos);
                    let ghost nxt: int = if pos + gl <= s.len() + 2 {
                        pos as int + gl as int
                    } else {
                        s.len() as int + 2
                    };
                    self.start = pos + gl;
                    proof {
                        assert(splitw_scan(s, f, start as int) == (SwScan::Found {
                            at: pos as int,
                            glen: gl as int,
                        }));
                        assert(splitw_rest(s, f, start as int) =~= seq![
                            OutM::V(ValM::Str(s.subrange(start as int, pos as int))),
                        ] + splitw_rest(s, f, nxt));
                        assert(self.start as int == nxt);
                        assert(splitw_rest(s, f, self.start as int) =~= splitw_rest(
                            s,
                            f,
                            start as int,
                        ).drop_first());
                    }
                    return Some(Out::Value(Value::Str(piece)));
                },
                Ok(Value::Bool(false)) => {
                    proof {
                        assert(splitw_scan(s, f, pos as int) == sw_combine(
                            splitw_scan(s, f, pos + gl),
                            gl as int,
                        ));
                    }
                    lastg = gl;
                    pos = pos + gl;
                },
                Ok(other) => {
                    proof {
                        crate::value::lemma_kind_dv(other);
                    }
                    let e = Error::TypeMismatch {
                        expected: crate::error::Expectation::BoolFromPredicate,
                        found: other.kind(),
                    };
                    self.start = total;
                    proof {
                        assert(splitw_rest(s, f, self.start as int) =~= Seq::<OutM>::empty());
                    }
                    return Some(Out::Error(e));
                },
                Err(e) => {
                    let e2 = e.with_prefix(crate::error::Ctx::StringSplit);
                    self.start = total;
                    proof {
                        assert(splitw_rest(s, f, self.start as int) =~= Seq::<OutM>::empty());
                    }
                    return Some(Out::Error(e2));
                },
            }
        }
    }

    /// A lower and optional upper bound on the remaining outputs.
    pub fn size_hint(&self) -> (r: (usize, Option<usize>))
        ensures
            r.0 <= splitw_rest(self.input@, self.predicate.dv(), self.start as int).len(),
    {
        let remaining: usize = if self.start < self.input.len() {
            1
        } else {
            0
        };
        (remaining, None)
    }
}

} // verus!
