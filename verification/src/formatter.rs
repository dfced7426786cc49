//! Listing formatter: escapes literal `%` in displayed names and
//! expands the templating mini-language (`%%`, `%n`) of rename
//! patterns, keeping a zero-padded monotonic counter.

use crate::util::{chars_to_string, digit_count, str_to_chars};
use vstd::prelude::*;

verus! {

/// A failure while expanding a rename pattern.
#[derive(PartialEq, PartialOrd, Eq, Ord, Debug, Clone, Copy)]
pub enum Error {
    /// `%` was followed by a character that is not a directive.
    UnknownSpec(char),
    /// The pattern ended with a lone `%`.
    ExpectedSpec,
}

/// `name` with every `%` doubled, so that the name round-trips
/// through the pattern expander unchanged.
pub open spec fn escape_spec(s: Seq<char>) -> Seq<char>
    decreases s.len(),
{
    if s.len() == 0 {
        Seq::empty()
    } else if s[0] == '%' {
        seq!['%', '%'] + escape_spec(s.skip(1))
    } else {
        seq![s[0]] + escape_spec(s.skip(1))
    }
}

/// The decimal digit for `d`.
pub open spec fn digit_char(d: nat) -> char {
    if d == 0 {
        '0'
    } else if d == 1 {
        '1'
    } else if d == 2 {
        '2'
    } else if d == 3 {
        '3'
    } else if d == 4 {
        '4'
    } else if d == 5 {
        '5'
    } else if d == 6 {
        '6'
    } else if d == 7 {
        '7'
    } else if d == 8 {
        '8'
    } else {
        '9'
    }
}

/// The decimal representation of `n`, most significant digit first.
pub open spec fn dec_seq(n: nat) -> Seq<char>
    decreases n,
{
    if n < 10 {
        seq![digit_char(n)]
    } else {
        dec_seq(n / 10).push(digit_char(n % 10))
    }
}

/// The decimal representation of `n`, left-padded with zeros to at
/// least `w` characters.
pub open spec fn pad_spec(w: nat, n: nat) -> Seq<char> {
    let d = dec_seq(n);
    if d.len() >= w {
        d
    } else {
        Seq::new((w - d.len()) as nat, |i: int| '0') + d
    }
}

/// Result of expanding pattern `s` with pad width `w` and counter `c`:
/// the expansion (or the first error, scanning left to right) and the
/// counter after the scan.  `%%` yields a literal `%`; `%n` yields the
/// padded counter and increments it; any other character after `%` is
/// an error, as is a trailing lone `%`.
pub open spec fn format_spec(s: Seq<char>, w: nat, c: nat) -> (Result<Seq<char>, Error>, nat)
    decreases s.len(),
{
    if s.len() == 0 {
        (Ok(Seq::empty()), c)
    } else if s[0] != '%' {
        let (r, c2) = format_spec(s.skip(1), w, c);
        (
            match r {
                Ok(t) => Ok(seq![s[0]] + t),
                Err(e) => Err(e),
            },
            c2,
        )
    } else if s.len() == 1 {
        (Err(Error::ExpectedSpec), c)
    } else if s[1] == '%' {
        let (r, c2) = format_spec(s.skip(2), w, c);
        (
            match r {
                Ok(t) => Ok(seq!['%'] + t),
                Err(e) => Err(e),
            },
            c2,
        )
    } else if s[1] == 'n' {
        let (r, c2) = format_spec(s.skip(2), w, c + 1);
        (
            match r {
                Ok(t) => Ok(pad_spec(w, c) + t),
                Err(e) => Err(e),
            },
            c2,
        )
    } else {
        (Err(Error::UnknownSpec(s[1])), c)
    }
}

/// Pattern-expansion state for one apply pass: the zero-pad width and
/// the next `%n` counter value.
#[derive(PartialEq, Debug)]
pub struct Formatter {
    width: usize,
    counter: usize,
}

impl Formatter {
    /// Spec view of the pad width.
    pub closed spec fn spec_width(&self) -> nat {
        self.width as nat
    }

    /// Spec view of the counter.
    pub closed spec fn spec_counter(&self) -> nat {
        self.counter as nat
    }

    /// A formatter with width 1 and counter 1.
    pub fn new() -> (r: Self)
        ensures
            r.spec_width() == 1,
            r.spec_counter() == 1,
    {
        Formatter { width: 1, counter: 1 }
    }

    /// Sets the zero-pad width for `%n` expansions.
    pub fn width(&mut self, width: usize)
        ensures
            final(self).spec_width() == width,
            final(self).spec_counter() == old(self).spec_counter(),
    {
        self.width = width;
    }

    /// Sets the `%n` counter.
    pub fn counter(&mut self, counter: usize)
        ensures
            final(self).spec_counter() == counter,
            final(self).spec_width() == old(self).spec_width(),
    {
        self.counter = counter;
    }

    /// Returns the counter and increments it.
    fn inc(&mut self) -> (r: usize)
        requires
            old(self).spec_counter() < usize::MAX,
        ensures
            r == old(self).spec_counter(),
            final(self).spec_counter() == old(self).spec_counter() + 1,
            final(self).spec_width() == old(self).spec_width(),
    {
        let counter = self.counter;
        self.counter = self.counter + 1;
        counter
    }

    /// Doubles every `%` in `s`.
    pub fn escape(s: &str) -> (r: String)
        ensures
            r@ == escape_spec(s@),
    {
        let chars = str_to_chars(s);
        let mut buf: Vec<char> = Vec::new();
        let mut i: usize = 0;
        proof {
            assert(s@.skip(0) =~= s@);
            assert(buf@ + escape_spec(s@) =~= escape_spec(s@));
        }
        while i < chars.len()
            invariant
                chars@ == s@,
                i <= s@.len(),
                escape_spec(s@) == buf@ + escape_spec(s@.skip(i as int)),
            decreases s@.len() - i,
        {
            let c = chars[i];
            buf.push(c);
            if c == '%' {
                buf.push(c);
            }
            proof {
                assert(s@.skip(i as int).skip(1) =~= s@.skip(i + 1));
            }
            i = i + 1;
        }
        proof {
            assert(escape_spec(s@) =~= buf@ + escape_spec(s@.skip(s@.len() as int)));
        }
        chars_to_string(&buf)
    }

    /// The decimal digits of `n`, most significant first.
    fn dec_digits(n: usize) -> (r: Vec<char>)
        ensures
            r@ == dec_seq(n as nat),
        decreases n,
    {
        if n < 10 {
            let mut v: Vec<char> = Vec::new();
            v.push(Self::digit(n));
            v
        } else {
            let mut v = Self::dec_digits(n / 10);
            v.push(Self::digit(n % 10));
            v
        }
    }

    /// The decimal digit character for `d`.
    fn digit(d: usize) -> (r: char)
        requires
            d < 10,
        ensures
            r == digit_char(d as nat),
    {
        match d {
            0 => '0',
            1 => '1',
            2 => '2',
            3 => '3',
            4 => '4',
            5 => '5',
            6 => '6',
            7 => '7',
            8 => '8',
            _ => '9',
        }
    }

    /// `n` in decimal.
    pub fn decimal(n: usize) -> (r: String)
        ensures
            r@ == dec_seq(n as nat),
    {
        let digits = Self::dec_digits(n);
        chars_to_string(&digits)
    }

    /// `counter` in decimal, left-padded with zeros to the formatter's
    /// width.
    pub fn pad_left(&self, counter: usize) -> (r: String)
        ensures
            r@ == pad_spec(self.spec_width(), counter as nat),
    {
        let digits = Self::dec_digits(counter);
        let mut buf: Vec<char> = Vec::new();
        let mut i: usize = 0;
        if digits.len() < self.width {
            let pad = self.width - digits.len();
            while i < pad
                invariant
                    i <= pad,
                    buf@ =~= Seq::new(i as nat, |j: int| '0'),
                decreases pad - i,
            {
                buf.push('0');
                proof {
                    assert(buf@ =~= Seq::new((i + 1) as nat, |j: int| '0'));
                }
                i = i + 1;
            }
        }
        let mut k: usize = 0;
        let ghost prefix = buf@;
        while k < digits.len()
            invariant
                k <= digits@.len(),
                digits@ == dec_seq(counter as nat),
                buf@ == prefix + digits@.take(k as int),
            decreases digits@.len() - k,
        {
            buf.push(digits[k]);
            proof {
                assert(digits@.take(k + 1) =~= digits@.take(k as int).push(digits@[k as int]));
            }
            k = k + 1;
        }
        proof {
            assert(digits@.take(digits@.len() as int) =~= digits@);
            assert(buf@ =~= pad_spec(self.spec_width(), counter as nat));
        }
        chars_to_string(&buf)
    }

    /// Expands pattern `s`, advancing the counter once per `%n`.  On
    /// an error the counter keeps the increments made before it.
    pub fn format(&mut self, s: &str) -> (r: Result<String, Error>)
        requires
            old(self).spec_counter() + s@.len() <= usize::MAX,
        ensures
            final(self).spec_width() == old(self).spec_width(),
            ({
                let (r0, c2) = format_spec(s@, old(self).spec_width(), old(self).spec_counter());
                &&& final(self).spec_counter() == c2
                &&& match (r, r0) {
                    (Ok(out), Ok(t)) => out@ == t,
                    (Err(e), Err(e0)) => e == e0,
                    _ => false,
                }
            }),
    {
        let ghost full = s@;
        let ghost w = old(self).spec_width();
        let ghost c0 = old(self).spec_counter();
        let chars = str_to_chars(s);
        let mut buf: Vec<char> = Vec::new();
        let mut i: usize = 0;
        proof {
            assert(full.skip(0) =~= full);
            let (r0, c2) = format_spec(full, w, c0);
            if r0 is Ok {
                assert(buf@ + r0->Ok_0 =~= r0->Ok_0);
            }
        }
        while i < chars.len()
            invariant
                w == old(self).spec_width(),
                c0 == old(self).spec_counter(),
                full == s@,
                chars@ == full,
                i <= full.len(),
                self.spec_width() == w,
                self.spec_counter() <= c0 + i,
                c0 + full.len() <= usize::MAX,
                ({
                    let (r0, c2) = format_spec(full, w, c0);
                    let (ri, ci) = format_spec(full.skip(i as int), w, self.spec_counter());
                    &&& c2 == ci
                    &&& r0 == match ri {
                        Ok(t) => Ok::<Seq<char>, Error>(buf@ + t),
                        Err(e) => Err::<Seq<char>, Error>(e),
                    }
                }),
            decreases full.len() - i,
        {
            let ghost rest = full.skip(i as int);
            let ghost buf_old = buf@;
            let c = chars[i];
            if c != '%' {
                buf.push(c);
                proof {
                    assert(rest.skip(1) =~= full.skip(i + 1));
                    let (ri, ci) = format_spec(full.skip(i + 1), w, self.spec_counter());
                    if ri is Ok {
                        assert(buf_old + (seq![rest[0]] + ri->Ok_0) =~= buf@ + ri->Ok_0);
                    }
                }
                i = i + 1;
            } else {
                if i + 1 == chars.len() {
                    proof {
                        assert(rest.len() == 1 && rest[0] == '%');
                    }
                    return Err(Error::ExpectedSpec);
                }
                let spec = chars[i + 1];
                if spec == '%' {
                    buf.push(c);
                    proof {
                        assert(rest.skip(2) =~= full.skip(i + 2));
                        let (ri, ci) = format_spec(full.skip(i + 2), w, self.spec_counter());
                        if ri is Ok {
                            assert(buf_old + (seq!['%'] + ri->Ok_0) =~= buf@ + ri->Ok_0);
                        }
                    }
                    i = i + 2;
                } else if spec == 'n' {
                    let ghost cbefore = self.spec_counter();
                    let counter = self.inc();
                    let padded = self.pad_left(counter);
                    let padded_chars = str_to_chars(padded.as_str());
                    let ghost bufbefore = buf@;
                    let mut k: usize = 0;
                    while k < padded_chars.len()
                        invariant
                            k <= padded_chars@.len(),
                            buf@ == bufbefore + padded_chars@.take(k as int),
                        decreases padded_chars@.len() - k,
                    {
                        buf.push(padded_chars[k]);
                        proof {
                            assert(padded_chars@.take(k + 1) =~= padded_chars@.take(
                                k as int).push(padded_chars@[k as int]));
                        }
                        k = k + 1;
                    }
                    proof {
                        assert(padded_chars@.take(padded_chars@.len() as int) =~= padded_chars@);
                        assert(rest.skip(2) =~= full.skip(i + 2));
                        let (ri, ci) = format_spec(full.skip(i + 2), w, self.spec_counter());
                        if ri is Ok {
                            assert(buf_old + (pad_spec(w, cbefore) + ri->Ok_0) =~= buf@
                                + ri->Ok_0);
                        }
                    }
                    i = i + 2;
                } else {
                    proof {
                        assert(rest.len() >= 2 && rest[0] == '%' && rest[1] == spec);
                    }
                    return Err(Error::UnknownSpec(spec));
                }
            }
        }
        proof {
            assert(full.skip(full.len() as int) =~= Seq::<char>::empty());
        }
        Ok(chars_to_string(&buf))
    }
}

/// Expanding a pattern advances the counter by at most one per
/// pattern character.
pub proof fn lemma_format_counter(s: Seq<char>, w: nat, c: nat)
    ensures
        c <= format_spec(s, w, c).1 <= c + s.len(),
    decreases s.len(),
{
    if s.len() == 0 {
    } else if s[0] != '%' {
        lemma_format_counter(s.skip(1), w, c);
    } else if s.len() == 1 {
    } else if s[1] == '%' {
        lemma_format_counter(s.skip(2), w, c);
    } else if s[1] == 'n' {
        lemma_format_counter(s.skip(2), w, c + 1);
    }
}

/// Escaping and expanding are inverse: expanding the escaped form of
/// any name reproduces the name exactly and leaves the counter
/// untouched, whatever the pad width.
pub proof fn lemma_expand_escape(s: Seq<char>, w: nat, c: nat)
    ensures
        format_spec(escape_spec(s), w, c) == (Ok::<Seq<char>, Error>(s), c),
    decreases s.len(),
{
    if s.len() == 0 {
        assert(escape_spec(s) =~= Seq::<char>::empty());
        assert(s =~= Seq::<char>::empty());
    } else {
        lemma_expand_escape(s.skip(1), w, c);
        let es = escape_spec(s);
        if s[0] == '%' {
            assert(es == seq!['%', '%'] + escape_spec(s.skip(1)));
            assert(es[0] == '%' && es[1] == '%' && es.len() >= 2);
            assert(es.skip(2) =~= escape_spec(s.skip(1)));
            assert(seq!['%'] + s.skip(1) =~= s);
        } else {
            assert(es == seq![s[0]] + escape_spec(s.skip(1)));
            assert(es[0] == s[0]);
            assert(es.skip(1) =~= escape_spec(s.skip(1)));
            assert(seq![s[0]] + s.skip(1) =~= s);
        }
    }
}

} // verus!
