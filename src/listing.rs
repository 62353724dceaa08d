//! Reading the text listing of streams, one `id name volume mute` line each.
use vstd::prelude::*;

use vstd::std_specs::iter::IteratorSpec;

use crate::types::Data;

verus! {

broadcast use {vstd::string::axiom_spec_iter, vstd::string::next_postcondition};

/// Index of the first `c` in `s`, or `s.len()` when there is none.
pub open spec fn char_pos(s: Seq<char>, c: char) -> nat
    decreases s.len(),
{
    if s.len() == 0 {
        0
    } else if s[0] == c {
        0
    } else {
        1 + char_pos(s.drop_first(), c)
    }
}

/// The part of `s` before the first `c` (all of `s` when there is none).
pub open spec fn before(s: Seq<char>, c: char) -> Seq<char> {
    s.take(char_pos(s, c) as int)
}

/// The part of `s` after the first `c`, if there is one.
pub open spec fn after(s: Seq<char>, c: char) -> Option<Seq<char>> {
    if char_pos(s, c) < s.len() {
        Some(s.skip(char_pos(s, c) as int + 1))
    } else {
        None
    }
}

/// `l` without one final carriage return.
pub open spec fn strip_cr(l: Seq<char>) -> Seq<char> {
    if l.len() > 0 && l.last() == '\r' {
        l.drop_last()
    } else {
        l
    }
}

/// The lines of `t`: split at each `\n`, a `\r` before the `\n` dropped, and no
/// empty line after a final `\n`.
pub open spec fn lines(t: Seq<char>) -> Seq<Seq<char>>
    decreases t.len(),
{
    if t.len() == 0 {
        Seq::empty()
    } else if char_pos(t, '\n') < t.len() {
        seq![strip_cr(before(t, '\n'))] + lines(t.skip(char_pos(t, '\n') as int + 1))
    } else {
        seq![t]
    }
}

/// Every character of `d` is an ASCII decimal digit.
pub open spec fn all_digits(d: Seq<char>) -> bool {
    forall|i: int| 0 <= i < d.len() ==> '0' <= #[trigger] d[i] && d[i] <= '9'
}

/// The number that the decimal digits `d` write.
pub open spec fn digits_value(d: Seq<char>) -> int
    decreases d.len(),
{
    if d.len() == 0 {
        0
    } else {
        digits_value(d.drop_last()) * 10 + ((d.last() as u32) as int - 48)
    }
}

/// `s` without one leading `+`.
pub open spec fn digits_part(s: Seq<char>) -> Seq<char> {
    if s.len() > 0 && s[0] == '+' {
        s.drop_first()
    } else {
        s
    }
}

/// An unsigned integer in decimal: an optional `+`, then at least one digit,
/// with a value that fits in `usize`.
pub open spec fn parse_usize(s: Seq<char>) -> Option<usize> {
    let d = digits_part(s);
    if d.len() > 0 && all_digits(d) && digits_value(d) <= usize::MAX {
        Some(digits_value(d) as usize)
    } else {
        None
    }
}

/// A listing line `id name volume mute ...`, fields separated by single
/// spaces: the id and volume in decimal, muted when the fourth field is `yes`.
pub open spec fn parse_line(l: Seq<char>) -> Option<(usize, Seq<char>, usize, bool)> {
    match after(l, ' ') {
        None => None,
        Some(r1) => match after(r1, ' ') {
            None => None,
            Some(r2) => match after(r2, ' ') {
                None => None,
                Some(r3) => match (parse_usize(before(l, ' ')), parse_usize(before(r2, ' '))) {
                    (Some(id), Some(volume)) => Some(
                        (id, before(r1, ' '), volume, before(r3, ' ') == seq!['y', 'e', 's']),
                    ),
                    _ => None,
                },
            },
        },
    }
}

/// Every line of the listing `t` is well formed.
pub open spec fn listing_ok(t: Seq<char>) -> bool {
    forall|i: int| 0 <= i < lines(t).len() ==> (#[trigger] parse_line(lines(t)[i])) is Some
}

/// What a parsed record holds, as plain values.
pub open spec fn data_view(d: Data) -> (usize, Seq<char>, usize, bool) {
    (d.id, d.name@, d.volume, d.mute)
}

proof fn lemma_char_pos(s: Seq<char>, c: char, p: int)
    requires
        0 <= p <= s.len(),
        forall|j: int| 0 <= j < p ==> s[j] != c,
        p < s.len() ==> s[p] == c,
    ensures
        char_pos(s, c) == p,
    decreases s.len(),
{
    if s.len() > 0 && s[0] != c {
        lemma_char_pos(s.drop_first(), c, p - 1);
    }
}

/// How `before` and `after` split the stretch `[s, t)` of `whole` at `p`.
proof fn lemma_split_at(whole: Seq<char>, s: int, t: int, p: int, c: char)
    requires
        0 <= s <= p <= t <= whole.len(),
        forall|j: int| s <= j < p ==> whole[j] != c,
        p < t ==> whole[p] == c,
    ensures
        char_pos(whole.subrange(s, t), c) == p - s,
        before(whole.subrange(s, t), c) == whole.subrange(s, p),
        after(whole.subrange(s, t), c) == if p < t {
            Some(whole.subrange(p + 1, t))
        } else {
            None::<Seq<char>>
        },
{
    let w = whole.subrange(s, t);
    lemma_char_pos(w, c, p - s);
    assert(before(w, c) =~= whole.subrange(s, p));
    if p < t {
        assert(w.skip(p - s + 1) =~= whole.subrange(p + 1, t));
    }
}

proof fn lemma_digits_prefix(d: Seq<char>, k: int)
    requires
        all_digits(d),
        0 <= k <= d.len(),
    ensures
        digits_value(d.take(k)) <= digits_value(d),
        0 <= digits_value(d.take(k)),
    decreases d.len(),
{
    if k == d.len() {
        assert(d.take(k) =~= d);
        lemma_digits_nonneg(d);
    } else {
        let p = d.drop_last();
        assert(all_digits(p)) by {
            assert forall|i: int| 0 <= i < p.len() implies '0' <= #[trigger] p[i] && p[i] <= '9' by {
                assert(p[i] == d[i]);
            }
        }
        lemma_digits_prefix(p, k);
        assert(p.take(k) =~= d.take(k));
        lemma_digits_nonneg(p);
        assert('0' <= d[d.len() - 1]);
    }
}

proof fn lemma_digits_nonneg(d: Seq<char>)
    requires
        all_digits(d),
    ensures
        0 <= digits_value(d),
    decreases d.len(),
{
    if d.len() > 0 {
        let p = d.drop_last();
        assert(all_digits(p)) by {
            assert forall|i: int| 0 <= i < p.len() implies '0' <= #[trigger] p[i] && p[i] <= '9' by {
                assert(p[i] == d[i]);
            }
        }
        lemma_digits_nonneg(p);
        assert('0' <= d[d.len() - 1]);
    }
}

/// The characters of `text`, in order.
fn chars_of(text: &str) -> (r: Vec<char>)
    ensures
        r@ == text@,
{
    let mut it = text.chars();
    let mut out: Vec<char> = Vec::new();
    loop
        invariant_except_break
            out@ + it.remaining() == text@,
            it.obeys_prophetic_iter_laws(),
            it.decrease() is Some,
        ensures
            out@ == text@,
        decreases it.decrease()->0,
    {
        let ghost before_next = it.remaining();
        let ghost out_before = out@;
        match it.next() {
            Some(c) => {
                out.push(c);
                proof {
                    assert(out@ + it.remaining() =~= out_before + before_next);
                }
            },
            None => {
                proof {
                    assert(out@ + it.remaining() =~= out@);
                }
                break;
            },
        }
    }
    out
}

/// First index in `[from, to)` holding `c`, or `to`.
fn find_char(chars: &Vec<char>, from: usize, to: usize, c: char) -> (p: usize)
    requires
        from <= to <= chars.len(),
    ensures
        from <= p <= to,
        forall|j: int| from <= j < p ==> chars@[j] != c,
        p < to ==> chars@[p as int] == c,
{
    let mut i = from;
    while i < to
        invariant
            from <= i <= to,
            to <= chars.len(),
            forall|j: int| from <= j < i ==> chars@[j] != c,
        decreases to - i,
    {
        if chars[i] == c {
            return i;
        }
        i = i + 1;
    }
    to
}

/// The unsigned decimal written in `[from, to)` of `chars`.
fn parse_usize_in(chars: &Vec<char>, from: usize, to: usize) -> (r: Option<usize>)
    requires
        from <= to <= chars.len(),
    ensures
        r == parse_usize(chars@.subrange(from as int, to as int)),
{
    let ghost s = chars@.subrange(from as int, to as int);
    let mut i = from;
    if i < to && chars[i] == '+' {
        i = i + 1;
    }
    let ghost start = i as int;
    proof {
        if s.len() > 0 && s[0] == '+' {
            assert(s.drop_first() =~= chars@.subrange(start, to as int));
        } else {
            assert(s =~= chars@.subrange(start, to as int));
        }
    }
    if i == to {
        return None;
    }
    let mut value: usize = 0;
    proof {
        assert(chars@.subrange(start, start) =~= Seq::<char>::empty());
    }
    while i < to
        invariant
            from <= start <= i <= to,
            to <= chars.len(),
            digits_part(s) == chars@.subrange(start, to as int),
            s == chars@.subrange(from as int, to as int),
            all_digits(chars@.subrange(start, i as int)),
            value as int == digits_value(chars@.subrange(start, i as int)),
        decreases to - i,
    {
        let c = chars[i];
        let ghost d = chars@.subrange(start, to as int);
        if c < '0' || c > '9' {
            proof {
                assert(d[i - start] == c);
            }
            return None;
        }
        let digit = (c as u32 - '0' as u32) as usize;
        proof {
            assert(chars@.subrange(start, i + 1).drop_last() =~= chars@.subrange(start, i as int));
            assert(all_digits(chars@.subrange(start, i + 1))) by {
                let e = chars@.subrange(start, i + 1);
                assert forall|j: int| 0 <= j < e.len() implies '0' <= #[trigger] e[j] && e[j] <= '9' by {
                    if j < e.len() - 1 {
                        assert(e[j] == chars@.subrange(start, i as int)[j]);
                    }
                }
            }
        }
        if value > (usize::MAX - digit) / 10 {
            proof {
                let e = chars@.subrange(start, i + 1);
                assert(digits_value(e) == value * 10 + digit);
                assert(digits_value(e) > usize::MAX) by (nonlinear_arith)
                    requires
                        value > (usize::MAX - digit) / 10,
                        digits_value(e) == value * 10 + digit,
                        digit <= 9,
                ;
                if all_digits(d) {
                    assert(d.take(i + 1 - start) =~= e);
                    lemma_digits_prefix(d, i + 1 - start);
                }
            }
            return None;
        }
        proof {
            assert(value * 10 + digit <= usize::MAX) by (nonlinear_arith)
                requires
                    value <= (usize::MAX - digit) / 10,
                    digit <= 9,
            ;
        }
        value = value * 10 + digit;
        i = i + 1;
    }
    proof {
        assert(chars@.subrange(start, to as int) =~= chars@.subrange(start, i as int));
    }
    Some(value)
}

/// The record written on the line `[from, to)` of `text`, whose characters are `chars`.
fn parse_line_in(text: &str, chars: &Vec<char>, from: usize, to: usize) -> (r: Option<Data>)
    requires
        chars@ == text@,
        from <= to <= chars.len(),
    ensures
        match r {
            Some(d) => parse_line(chars@.subrange(from as int, to as int)) == Some(data_view(d)),
            None => parse_line(chars@.subrange(from as int, to as int)) is None,
        },
{
    let ghost w = chars@;
    let space1 = find_char(chars, from, to, ' ');
    proof {
        lemma_split_at(w, from as int, to as int, space1 as int, ' ');
    }
    if space1 == to {
        return None;
    }
    let space2 = find_char(chars, space1 + 1, to, ' ');
    proof {
        lemma_split_at(w, space1 + 1, to as int, space2 as int, ' ');
    }
    if space2 == to {
        return None;
    }
    let space3 = find_char(chars, space2 + 1, to, ' ');
    proof {
        lemma_split_at(w, space2 + 1, to as int, space3 as int, ' ');
    }
    if space3 == to {
        return None;
    }
    let space4 = find_char(chars, space3 + 1, to, ' ');
    proof {
        lemma_split_at(w, space3 + 1, to as int, space4 as int, ' ');
    }
    let id = parse_usize_in(chars, from, space1);
    let volume = parse_usize_in(chars, space2 + 1, space3);
    match (id, volume) {
        (Some(id), Some(volume)) => {
            let name = text.substring_char(space1 + 1, space2).to_owned();
            let mute = space4 - space3 == 4 && chars[space3 + 1] == 'y' && chars[space3 + 2] == 'e' && chars[space3 + 3] == 's';
            proof {
                let f = w.subrange(space3 + 1, space4 as int);
                if mute {
                    assert(f =~= seq!['y', 'e', 's']);
                } else if f.len() == 3 {
                    assert(f[0] == w[space3 + 1] && f[1] == w[space3 + 2] && f[2] == w[space3 + 3]);
                    assert(f != seq!['y', 'e', 's']);
                }
            }
            Some(Data { id, name, volume, mute })
        },
        _ => None,
    }
}

/// Reads a listing of streams, one per line as `id name volume mute`; `None`
/// when some line is not of that form.
pub fn parse_listing(text: &str) -> (r: Option<Vec<Data>>)
    ensures
        match r {
            Some(v) => {
                &&& listing_ok(text@)
                &&& v.len() == lines(text@).len()
                &&& forall|i: int| 0 <= i < v.len() ==> parse_line(lines(text@)[i]) == Some(data_view(#[trigger] v@[i]))
            },
            None => !listing_ok(text@),
        },
{
    let chars = chars_of(text);
    let n = chars.len();
    let ghost w = chars@;
    let mut out: Vec<Data> = Vec::new();
    let ghost mut done: Seq<Seq<char>> = Seq::empty();
    let mut pos: usize = 0;
    proof {
        assert(w.skip(0) =~= w);
        assert(done + lines(w.skip(0)) =~= lines(w));
    }
    while pos < n
        invariant
            w == chars@,
            w == text@,
            n == chars.len(),
            pos <= n,
            lines(w) == done + lines(w.skip(pos as int)),
            out.len() == done.len(),
            forall|i: int| 0 <= i < done.len() ==> parse_line(done[i]) == Some(data_view(#[trigger] out@[i])),
        decreases n - pos,
    {
        let e = find_char(&chars, pos, n, '\n');
        let ghost t = w.skip(pos as int);
        proof {
            lemma_split_at(w, pos as int, n as int, e as int, '\n');
            assert(w.subrange(pos as int, n as int) =~= t);
        }
        let end: usize = if e < n && e > pos && chars[e - 1] == '\r' {
            e - 1
        } else {
            e
        };
        let ghost line = w.subrange(pos as int, end as int);
        let ghost next: int = if e < n {
            e + 1
        } else {
            n as int
        };
        proof {
            if e < n {
                assert(line =~= strip_cr(w.subrange(pos as int, e as int)));
                assert(t.skip(e - pos + 1) =~= w.skip(next));
            } else {
                assert(line =~= t);
                assert(w.skip(next) =~= Seq::<char>::empty());
            }
            assert(lines(t) == seq![line] + lines(w.skip(next)));
            assert(lines(w) =~= done.push(line) + lines(w.skip(next)));
        }
        match parse_line_in(text, &chars, pos, end) {
            None => {
                proof {
                    assert(lines(w)[done.len() as int] == line);
                }
                return None;
            },
            Some(d) => {
                out.push(d);
                proof {
                    done = done.push(line);
                }
            },
        }
        pos = if e < n {
            e + 1
        } else {
            n
        };
    }
    proof {
        assert(w.skip(pos as int) =~= Seq::<char>::empty());
        assert(lines(w) =~= done);
        assert forall|i: int| 0 <= i < lines(w).len() implies (#[trigger] parse_line(lines(w)[i])) is Some by {
            assert(parse_line(done[i]) == Some(data_view(out@[i])));
        }
    }
    Some(out)
}

} // verus!
