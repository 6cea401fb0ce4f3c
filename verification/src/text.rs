//! Character-level helpers: splitting on a separator and reading unsigned
//! decimal numbers, with the meaning of Rust's `str::split` and
//! `u8::from_str` stated as spec functions.
use vstd::prelude::*;

verus! {

/// The pieces of `s` between the occurrences of `sep`, in order; `n`
/// separators give `n + 1` pieces (what `str::split` yields for one char).
pub open spec fn split_on(s: Seq<char>, sep: char) -> Seq<Seq<char>>
    decreases s.len(),
{
    if s.len() == 0 {
        seq![Seq::<char>::empty()]
    } else {
        let pieces = split_on(s.drop_last(), sep);
        if s.last() == sep {
            pieces.push(Seq::<char>::empty())
        } else {
            pieces.update(pieces.len() - 1, pieces.last().push(s.last()))
        }
    }
}

/// Splitting always yields at least one piece.
pub proof fn lemma_split_on_len(s: Seq<char>, sep: char)
    ensures
        split_on(s, sep).len() >= 1,
    decreases s.len(),
{
    if s.len() > 0 {
        lemma_split_on_len(s.drop_last(), sep);
    }
}

/// The characters of a string slice, in order.
pub fn chars_of(s: &str) -> (v: Vec<char>)
    ensures
        v@ == s@,
{
    let mut v: Vec<char> = Vec::new();
    for c in it: s.chars()
        invariant
            v@ == it.seq().take(it.index() as int),
    {
        v.push(c);
        proof {
            assert(it.seq().take(it.index() + 1) =~= it.seq().take(it.index() as int).push(c));
        }
    }
    v
}


/// The contents of a sequence of character vectors.
pub open spec fn views(v: Seq<Vec<char>>) -> Seq<Seq<char>> {
    v.map_values(|p: Vec<char>| p@)
}

/// Splits `s` at every `sep`, as `str::split` does with one character.
pub fn split_chars(s: &Vec<char>, sep: char) -> (pieces: Vec<Vec<char>>)
    ensures
        views(pieces@) == split_on(s@, sep),
{
    let mut pieces: Vec<Vec<char>> = Vec::new();
    let mut cur: Vec<char> = Vec::new();
    let mut i: usize = 0;
    assert(s@.take(0) =~= Seq::<char>::empty());
    while i < s.len()
        invariant
            0 <= i <= s.len(),
            views(pieces@).push(cur@) =~= split_on(s@.take(i as int), sep),
        decreases s.len() - i,
    {
        let c = s[i];
        let ghost before = views(pieces@).push(cur@);
        assert(s@.take(i + 1).drop_last() =~= s@.take(i as int));
        assert(s@.take(i + 1).last() == c);
        if c == sep {
            pieces.push(cur);
            cur = Vec::new();
            assert(views(pieces@).push(cur@) =~= before.push(Seq::<char>::empty()));
        } else {
            cur.push(c);
            assert(views(pieces@).push(cur@) =~= before.update(
                before.len() - 1,
                before.last().push(c),
            ));
        }
        i = i + 1;
    }
    assert(s@.take(s.len() as int) =~= s@);
    pieces.push(cur);
    pieces
}

/// An ASCII decimal digit.
pub open spec fn is_digit(c: char) -> bool {
    '0' <= c && c <= '9'
}

/// The value of an ASCII decimal digit.
pub open spec fn digit_value(c: char) -> int {
    (c as int) - ('0' as int)
}

/// The value of a string of decimal digits, most significant first.
pub open spec fn digits_value(s: Seq<char>) -> int
    decreases s.len(),
{
    if s.len() == 0 {
        0
    } else {
        digits_value(s.drop_last()) * 10 + digit_value(s.last())
    }
}

/// The digits of an unsigned number: an optional leading `+` is skipped.
pub open spec fn unsigned_digits(s: Seq<char>) -> Seq<char> {
    if s.len() > 0 && s[0] == '+' {
        s.drop_first()
    } else {
        s
    }
}

/// What `u8::from_str` gives: an optional `+`, then one or more ASCII digits
/// whose value is at most 255; anything else is an error.
pub open spec fn parse_u8_spec(s: Seq<char>) -> Option<u8> {
    let d = unsigned_digits(s);
    if d.len() > 0 && (forall|i: int| 0 <= i < d.len() ==> is_digit(#[trigger] d[i]))
        && digits_value(d) <= 255 {
        Some(digits_value(d) as u8)
    } else {
        None
    }
}

/// The value of a single digit character, if it is one.
pub fn digit_of(c: char) -> (d: Option<u16>)
    ensures
        d == (if is_digit(c) {
            Some(digit_value(c) as u16)
        } else {
            None::<u16>
        }),
{
    if '0' <= c && c <= '9' {
        Some(((c as u32) - ('0' as u32)) as u16)
    } else {
        None
    }
}

/// Reads an unsigned 8-bit decimal number, as `u8::from_str` does.
pub fn parse_u8(s: &Vec<char>) -> (r: Option<u8>)
    ensures
        r == parse_u8_spec(s@),
{
    let mut start: usize = 0;
    if s.len() > 0 && s[0] == '+' {
        start = 1;
    }
    let ghost d = unsigned_digits(s@);
    assert(d =~= s@.skip(start as int));
    if start >= s.len() {
        return None;
    }
    // `value` saturates at 256, which is enough to tell whether the number fits.
    let mut value: u32 = 0;
    let mut i: usize = start;
    assert(d.take(0) =~= Seq::<char>::empty());
    while i < s.len()
        invariant
            start <= i <= s.len(),
            d =~= s@.skip(start as int),
            d == unsigned_digits(s@),
            forall|k: int| 0 <= k < i - start ==> is_digit(#[trigger] d[k]),
            value as int == if digits_value(d.take(i - start)) < 256 {
                digits_value(d.take(i - start))
            } else {
                256
            },
        decreases s.len() - i,
    {
        let c = s[i];
        assert(d[i - start] == c);
        match digit_of(c) {
            None => {
                assert(!is_digit(d[i - start]));
                return None;
            },
            Some(v) => {
                let ghost pre = d.take(i - start);
                assert(d.take(i - start + 1).drop_last() =~= pre);
                assert(d.take(i - start + 1).last() == c);
                assert(digits_value(pre) >= 0) by {
                    lemma_digits_value_nonneg(pre);
                }
                let next = value * 10 + v as u32;
                if next < 256 {
                    value = next;
                } else {
                    value = 256;
                }
            },
        }
        i = i + 1;
    }
    assert(d.take(d.len() as int) =~= d);
    if value < 256 {
        Some(value as u8)
    } else {
        None
    }
}

proof fn lemma_digits_value_nonneg(s: Seq<char>)
    requires
        forall|k: int| 0 <= k < s.len() ==> is_digit(#[trigger] s[k]),
    ensures
        digits_value(s) >= 0,
    decreases s.len(),
{
    if s.len() > 0 {
        lemma_digits_value_nonneg(s.drop_last());
        assert(is_digit(s[s.len() - 1]));
    }
}


/// The pieces put back together with `sep` between each two.
pub open spec fn join_with(pieces: Seq<Seq<char>>, sep: char) -> Seq<char>
    decreases pieces.len(),
{
    if pieces.len() <= 1 {
        if pieces.len() == 1 {
            pieces[0]
        } else {
            Seq::<char>::empty()
        }
    } else {
        join_with(pieces.drop_last(), sep).push(sep) + pieces.last()
    }
}

proof fn lemma_join_extend_last(pieces: Seq<Seq<char>>, sep: char, c: char)
    requires
        pieces.len() >= 1,
    ensures
        join_with(pieces.update(pieces.len() - 1, pieces.last().push(c)), sep) == join_with(
            pieces,
            sep,
        ).push(c),
{
    let q = pieces.update(pieces.len() - 1, pieces.last().push(c));
    if pieces.len() == 1 {
        assert(q[0] == pieces[0].push(c));
    } else {
        assert(q.drop_last() =~= pieces.drop_last());
        assert(q.last() == pieces.last().push(c));
        assert(join_with(q, sep) =~= join_with(pieces, sep).push(c));
    }
}

/// Splitting is undone by joining: no piece holds the separator, and the
/// pieces joined with the separator give back the text.
pub proof fn law_split_join(s: Seq<char>, sep: char)
    ensures
        join_with(split_on(s, sep), sep) == s,
        forall|i: int, j: int|
            0 <= i < split_on(s, sep).len() && 0 <= j < split_on(s, sep)[i].len()
                ==> #[trigger] split_on(s, sep)[i][j] != sep,
    decreases s.len(),
{
    if s.len() == 0 {
        assert(split_on(s, sep) =~= seq![Seq::<char>::empty()]);
        assert(s =~= Seq::<char>::empty());
    } else {
        let pre = s.drop_last();
        law_split_join(pre, sep);
        lemma_split_on_len(pre, sep);
        let p = split_on(pre, sep);
        let c = s.last();
        if c == sep {
            let q = p.push(Seq::<char>::empty());
            assert(q.drop_last() =~= p);
            assert(join_with(q, sep) =~= pre.push(sep) + Seq::<char>::empty());
            assert(s =~= pre.push(sep));
            assert forall|i: int, j: int|
                0 <= i < q.len() && 0 <= j < q[i].len() implies #[trigger] q[i][j] != sep by {
                assert(i < p.len());
                assert(q[i] == p[i]);
            }
        } else {
            lemma_join_extend_last(p, sep, c);
            assert(s =~= pre.push(c));
            let q = p.update(p.len() - 1, p.last().push(c));
            assert forall|i: int, j: int|
                0 <= i < q.len() && 0 <= j < q[i].len() implies #[trigger] q[i][j] != sep by {
                if i == p.len() - 1 {
                    if j < p.last().len() {
                        assert(q[i][j] == p[i][j]);
                    }
                } else {
                    assert(q[i] == p[i]);
                }
            }
        }
    }
}


/// How numbers are read, digit by digit: the empty text, a lone `+` and any
/// text holding a character other than a digit (after a leading `+`) are
/// refused; a single digit reads as its value; a leading `+` changes
/// nothing; and one more digit after a number `a` reads as `10 * a` plus the
/// digit while that stays at most 255.
pub proof fn law_parse_u8_digits(x: Seq<char>, c: char)
    ensures
        parse_u8_spec(Seq::<char>::empty()) is None,
        parse_u8_spec(seq!['+']) is None,
        '0' <= c <= '9' ==> parse_u8_spec(seq![c]) == Some(((c as int) - ('0' as int)) as u8),
        x.len() > 0 && x[0] != '+' ==> parse_u8_spec(seq!['+'] + x) == parse_u8_spec(x),
        !('0' <= c <= '9') && c != '+' ==> parse_u8_spec(x.push(c)) is None,
        x.len() > 0 && x[0] != '+' && '0' <= c <= '9' ==> match parse_u8_spec(x) {
            Some(a) => parse_u8_spec(x.push(c)) == if 10 * a + ((c as int) - ('0' as int)) <= 255 {
                Some((10 * a + ((c as int) - ('0' as int))) as u8)
            } else {
                None
            },
            None => (forall|i: int| 0 <= i < x.len() ==> is_digit(#[trigger] x[i]))
                ==> parse_u8_spec(x.push(c)) is None,
        },
{
    assert((seq!['+'] + x).drop_first() =~= x);
    assert(unsigned_digits(seq!['+']) =~= Seq::<char>::empty());
    if '0' <= c <= '9' {
        lemma_one_digit(c);
    }
    if !('0' <= c <= '9') && c != '+' {
        let d = unsigned_digits(x.push(c));
        assert(d[d.len() - 1] == c);
    }
    if x.len() > 0 && x[0] != '+' && '0' <= c <= '9' {
        lemma_next_digit(x, c);
    }
}

proof fn lemma_one_digit(c: char)
    requires
        '0' <= c <= '9',
    ensures
        parse_u8_spec(seq![c]) == Some(((c as int) - ('0' as int)) as u8),
{
    let d = seq![c];
    assert(unsigned_digits(d) == d);
    assert(d.drop_last() =~= Seq::<char>::empty());
    assert(d.last() == c);
    assert(digits_value(d.drop_last()) == 0);
    assert(digits_value(d) == digits_value(d.drop_last()) * 10 + digit_value(d.last()));
    assert(forall|i: int| 0 <= i < d.len() ==> is_digit(#[trigger] d[i]));
}

proof fn lemma_next_digit(x: Seq<char>, c: char)
    requires
        x.len() > 0,
        x[0] != '+',
        '0' <= c <= '9',
    ensures
        match parse_u8_spec(x) {
            Some(a) => parse_u8_spec(x.push(c)) == if 10 * a + ((c as int) - ('0' as int)) <= 255 {
                Some((10 * a + ((c as int) - ('0' as int))) as u8)
            } else {
                None
            },
            None => (forall|i: int| 0 <= i < x.len() ==> is_digit(#[trigger] x[i]))
                ==> parse_u8_spec(x.push(c)) is None,
        },
{
    let d = x.push(c);
    assert(unsigned_digits(x) == x);
    assert(unsigned_digits(d) == d);
    assert(d.drop_last() =~= x);
    assert(d.last() == c);
    assert(digits_value(d) == digits_value(x) * 10 + digit_value(c));
    if forall|i: int| 0 <= i < x.len() ==> is_digit(#[trigger] x[i]) {
        lemma_digits_value_nonneg(x);
        assert forall|i: int| 0 <= i < d.len() implies is_digit(#[trigger] d[i]) by {
            if i < x.len() {
                assert(d[i] == x[i]);
            }
        }
    }
}


/// A text without the separator is one piece.
proof fn lemma_split_no_sep(b: Seq<char>, sep: char)
    requires
        forall|j: int| 0 <= j < b.len() ==> #[trigger] b[j] != sep,
    ensures
        split_on(b, sep) == seq![b],
    decreases b.len(),
{
    if b.len() == 0 {
        assert(b =~= Seq::<char>::empty());
    } else {
        assert(forall|j: int| 0 <= j < b.drop_last().len() ==> #[trigger] b.drop_last()[j] == b[j]);
        lemma_split_no_sep(b.drop_last(), sep);
        assert(b.last() != sep);
        assert(b.drop_last().push(b.last()) =~= b);
        assert(seq![b.drop_last()].update(0, b.drop_last().push(b.last())) =~= seq![b]);
    }
}

/// A separator followed by a text without it adds that text as one piece.
proof fn lemma_split_sep_then(x: Seq<char>, b: Seq<char>, sep: char)
    requires
        forall|j: int| 0 <= j < b.len() ==> #[trigger] b[j] != sep,
    ensures
        split_on(x.push(sep) + b, sep) == split_on(x, sep).push(b),
    decreases b.len(),
{
    if b.len() == 0 {
        assert(b =~= Seq::<char>::empty());
        assert(x.push(sep) + b =~= x.push(sep));
        assert((x.push(sep)).drop_last() =~= x);
    } else {
        let b0 = b.drop_last();
        assert(forall|j: int| 0 <= j < b0.len() ==> #[trigger] b0[j] == b[j]);
        lemma_split_sep_then(x, b0, sep);
        assert(b0.push(b.last()) =~= b);
        let t = x.push(sep) + b;
        assert(t.drop_last() =~= x.push(sep) + b0);
        assert(t.last() == b.last());
        assert(b.last() != sep);
        assert(split_on(x, sep).push(b0).update(
            split_on(x, sep).push(b0).len() - 1,
            b0.push(b.last()),
        ) =~= split_on(x, sep).push(b));
    }
}

/// Joining is undone by splitting: pieces without the separator, joined
/// with it, split back into the same pieces.
pub proof fn law_join_split(pieces: Seq<Seq<char>>, sep: char)
    requires
        pieces.len() >= 1,
        forall|i: int, j: int|
            0 <= i < pieces.len() && 0 <= j < pieces[i].len() ==> #[trigger] pieces[i][j] != sep,
    ensures
        split_on(join_with(pieces, sep), sep) == pieces,
    decreases pieces.len(),
{
    if pieces.len() == 1 {
        assert(forall|j: int| 0 <= j < pieces[0].len() ==> #[trigger] pieces[0][j] != sep);
        lemma_split_no_sep(pieces[0], sep);
        assert(seq![pieces[0]] =~= pieces);
    } else {
        let pre = pieces.drop_last();
        assert forall|i: int, j: int|
            0 <= i < pre.len() && 0 <= j < pre[i].len() implies #[trigger] pre[i][j] != sep by {
            assert(pre[i] == pieces[i]);
        }
        law_join_split(pre, sep);
        let b = pieces.last();
        assert(forall|j: int| 0 <= j < b.len() ==> #[trigger] b[j] != sep) by {
            assert forall|j: int| 0 <= j < b.len() implies #[trigger] b[j] != sep by {
                assert(pieces[pieces.len() - 1][j] != sep);
            }
        }
        lemma_split_sep_then(join_with(pre, sep), b, sep);
        assert(pre.push(b) =~= pieces);
    }
}

} // verus!
