//! Character-level building blocks of the token format: splitting on a
//! separator, decimal rendering of a `usize`, and decimal parsing.

use vstd::prelude::*;

verus! {

// ---------------------------------------------------------------------------
// Splitting
// ---------------------------------------------------------------------------

/// The pieces of `s` between occurrences of `sep`, as `str::split` yields them:
/// `n` separators give `n + 1` pieces, so the empty text gives one empty piece.
pub open spec fn split(s: Seq<char>, sep: char) -> Seq<Seq<char>>
    decreases s.len(),
{
    if s.len() == 0 {
        seq![Seq::<char>::empty()]
    } else {
        let init = split(s.drop_last(), sep);
        if s.last() == sep {
            init.push(Seq::<char>::empty())
        } else {
            init.update(init.len() - 1, init.last().push(s.last()))
        }
    }
}

/// The views of a sequence of character vectors.
pub open spec fn views(v: Seq<Vec<char>>) -> Seq<Seq<char>> {
    Seq::new(v.len(), |i: int| v[i]@)
}

/// Splitting always yields at least one piece.
pub proof fn lemma_split_nonempty(s: Seq<char>, sep: char)
    ensures
        split(s, sep).len() >= 1,
    decreases s.len(),
{
    if s.len() > 0 {
        lemma_split_nonempty(s.drop_last(), sep);
    }
}

/// Text without the separator is a single piece.
pub proof fn lemma_split_no_sep(s: Seq<char>, sep: char)
    requires
        !s.contains(sep),
    ensures
        split(s, sep) == seq![s],
    decreases s.len(),
{
    if s.len() == 0 {
        assert(s =~= Seq::<char>::empty());
    } else {
        let init = s.drop_last();
        assert(!init.contains(sep)) by {
            if init.contains(sep) {
                let k = choose|k: int| 0 <= k < init.len() && init[k] == sep;
                assert(s[k] == sep);
            }
        }
        lemma_split_no_sep(init, sep);
        assert(s[s.len() - 1] != sep);
        assert(init.push(s.last()) =~= s);
        assert(seq![init].update(0, init.push(s.last())) =~= seq![s]);
    }
}

/// A separator between two texts joins their pieces.
pub proof fn lemma_split_concat(a: Seq<char>, b: Seq<char>, sep: char)
    ensures
        split(a + seq![sep] + b, sep) == split(a, sep) + split(b, sep),
    decreases b.len(),
{
    let s = a + seq![sep] + b;
    if b.len() == 0 {
        assert(s.drop_last() =~= a);
        assert(split(b, sep) == seq![Seq::<char>::empty()]);
        assert(split(a, sep).push(Seq::<char>::empty()) =~= split(a, sep) + split(b, sep));
    } else {
        let b0 = b.drop_last();
        lemma_split_concat(a, b0, sep);
        lemma_split_nonempty(a, sep);
        lemma_split_nonempty(b0, sep);
        assert(s.drop_last() =~= a + seq![sep] + b0);
        assert(s.last() == b.last());
        let left = split(a, sep);
        let right = split(b0, sep);
        if b.last() == sep {
            assert((left + right).push(Seq::<char>::empty()) =~= left + right.push(
                Seq::<char>::empty(),
            ));
        } else {
            let joined = left + right;
            assert(joined.last() == right.last());
            assert(joined.update(joined.len() - 1, joined.last().push(b.last())) =~= left
                + right.update(right.len() - 1, right.last().push(b.last())));
        }
    }
}

/// The pieces joined back together with `sep` between neighbours.
pub open spec fn join(pieces: Seq<Seq<char>>, sep: char) -> Seq<char>
    decreases pieces.len(),
{
    if pieces.len() <= 1 {
        if pieces.len() == 1 {
            pieces[0]
        } else {
            Seq::<char>::empty()
        }
    } else {
        join(pieces.drop_last(), sep) + seq![sep] + pieces.last()
    }
}

/// Growing the last piece by a character grows the joined text by it.
proof fn lemma_join_grow_last(pieces: Seq<Seq<char>>, sep: char, c: char)
    requires
        pieces.len() >= 1,
    ensures
        join(pieces.update(pieces.len() - 1, pieces.last().push(c)), sep) == join(pieces, sep).push(c),
{
    let grown = pieces.update(pieces.len() - 1, pieces.last().push(c));
    if pieces.len() > 1 {
        assert(grown.drop_last() =~= pieces.drop_last());
        assert(join(grown, sep) =~= join(pieces, sep).push(c));
    }
}

/// What `split` means: no piece holds the separator, and joining the pieces
/// with it gives the text back. (These two facts determine the pieces.)
pub proof fn lemma_split_join(s: Seq<char>, sep: char)
    ensures
        join(split(s, sep), sep) == s,
        forall|i: int| 0 <= i < split(s, sep).len() ==> !(#[trigger] split(s, sep)[i]).contains(sep),
    decreases s.len(),
{
    lemma_split_nonempty(s, sep);
    if s.len() == 0 {
        assert(s =~= Seq::<char>::empty());
        assert(!Seq::<char>::empty().contains(sep));
    } else {
        let init = s.drop_last();
        let c = s.last();
        let before = split(init, sep);
        lemma_split_join(init, sep);
        lemma_split_nonempty(init, sep);
        assert(init.push(c) =~= s);
        if c == sep {
            let after = before.push(Seq::<char>::empty());
            assert(after.drop_last() =~= before);
            assert(join(after, sep) =~= s);
            assert forall|i: int| 0 <= i < after.len() implies !(#[trigger] after[i]).contains(
                sep,
            ) by {
                if i < before.len() {
                    assert(after[i] == before[i]);
                }
            }
        } else {
            let last = before.last();
            lemma_join_grow_last(before, sep, c);
            let after = before.update(before.len() - 1, last.push(c));
            assert forall|i: int| 0 <= i < after.len() implies !(#[trigger] after[i]).contains(
                sep,
            ) by {
                if i < before.len() - 1 {
                    assert(after[i] == before[i]);
                } else {
                    assert(!before[before.len() - 1].contains(sep));
                    if last.push(c).contains(sep) {
                        let k = choose|k: int| 0 <= k < last.len() + 1 && last.push(c)[k] == sep;
                        assert(last[k] == sep);
                    }
                }
            }
        }
    }
}

/// The pieces of `v` between occurrences of `sep`.
pub fn split_chars(v: &Vec<char>, sep: char) -> (pieces: Vec<Vec<char>>)
    ensures
        views(pieces@) == split(v@, sep),
{
    let mut pieces: Vec<Vec<char>> = Vec::new();
    let mut cur: Vec<char> = Vec::new();
    let mut i: usize = 0;
    assert(v@.take(0) =~= Seq::<char>::empty());
    assert(views(pieces@).push(cur@) =~= split(v@.take(0), sep));
    while i < v.len()
        invariant
            i <= v.len(),
            views(pieces@).push(cur@) == split(v@.take(i as int), sep),
        decreases v.len() - i,
    {
        let c = v[i];
        let ghost before = split(v@.take(i as int), sep);
        assert(v@.take(i + 1).drop_last() =~= v@.take(i as int));
        assert(v@.take(i + 1).last() == c);
        if c == sep {
            let done = cur;
            pieces.push(done);
            cur = Vec::new();
            assert(views(pieces@).push(cur@) =~= before.push(Seq::<char>::empty()));
        } else {
            cur.push(c);
            assert(views(pieces@).push(cur@) =~= before.update(
                before.len() - 1,
                before.last().push(c),
            ));
        }
        i = i + 1;
    }
    assert(v@.take(v.len() as int) =~= v@);
    assert(views(pieces@).push(cur@).len() >= 1);
    pieces.push(cur);
    assert(views(pieces@) =~= split(v@, sep));
    pieces
}

/// The characters of `s`, in order.
pub fn chars_of(s: &str) -> (v: Vec<char>)
    ensures
        v@ == s@,
{
    broadcast use vstd::string::axiom_spec_iter;

    let mut v: Vec<char> = Vec::new();
    for c in it: s.chars()
        invariant
            it.seq() == s@,
            v@.len() == it.index(),
            forall|k: int| 0 <= k < it.index() ==> v@[k] == s@[k],
    {
        v.push(c);
    }
    v
}

// ---------------------------------------------------------------------------
// Decimal digits
// ---------------------------------------------------------------------------

/// An ASCII decimal digit.
pub open spec fn is_digit(c: char) -> bool {
    '0' <= c && c <= '9'
}

/// The value of an ASCII decimal digit.
pub open spec fn digit_value(c: char) -> int {
    c as int - '0' as int
}

/// The ASCII digit for a value below ten.
pub open spec fn digit_char(d: int) -> char {
    if d == 0 {
        '0'
    } else if d == 1 {
        '1'
    } else if d == 2 {
        '2'
    } else if d == 3 {
        '3'
    } else if d == 4 {
        '4'
    } else if d == 5 {
        '5'
    } else if d == 6 {
        '6'
    } else if d == 7 {
        '7'
    } else if d == 8 {
        '8'
    } else {
        '9'
    }
}

/// The shortest decimal rendering of `n` (no sign, no leading zeros; `0` for zero).
pub open spec fn decimal(n: nat) -> Seq<char>
    decreases n,
{
    if n < 10 {
        seq![digit_char(n as int)]
    } else {
        decimal(n / 10).push(digit_char(n as int % 10))
    }
}

/// Every character of `s` is a decimal digit.
pub open spec fn all_digits(s: Seq<char>) -> bool {
    forall|i: int| 0 <= i < s.len() ==> is_digit(#[trigger] s[i])
}

/// The number that a string of digits denotes, most significant first.
pub open spec fn digits_value(s: Seq<char>) -> nat
    decreases s.len(),
{
    if s.len() == 0 {
        0
    } else {
        (digits_value(s.drop_last()) * 10 + digit_value(s.last())) as nat
    }
}

/// `s` without one leading `+`, if it has one.
pub open spec fn unsigned(s: Seq<char>) -> Seq<char> {
    if s.len() > 0 && s[0] == '+' {
        s.drop_first()
    } else {
        s
    }
}

/// What `<usize as FromStr>::from_str` accepts: an optional `+` followed by at
/// least one decimal digit, denoting a value that fits in a `usize`.
pub open spec fn parse_usize(s: Seq<char>) -> Option<usize> {
    let digits = unsigned(s);
    if digits.len() > 0 && all_digits(digits) && digits_value(digits) <= usize::MAX {
        Some(digits_value(digits) as usize)
    } else {
        None
    }
}

/// A decimal rendering is a non-empty string of digits denoting the number.
pub proof fn lemma_decimal(n: nat)
    ensures
        decimal(n).len() >= 1,
        all_digits(decimal(n)),
        digits_value(decimal(n)) == n,
        !decimal(n).contains(':'),
        !decimal(n).contains(','),
        !decimal(n).contains('+'),
    decreases n,
{
    if n >= 10 {
        lemma_decimal(n / 10);
        let s = decimal(n);
        let last = digit_char(n as int % 10);
        assert(s.drop_last() =~= decimal(n / 10));
        assert(is_digit(last));
        assert(digit_value(last) == n % 10);
        assert((n / 10) * 10 + n % 10 == n) by (nonlinear_arith);
        assert(digits_value(s) == digits_value(decimal(n / 10)) * 10 + digit_value(last));
        assert forall|i: int| 0 <= i < s.len() implies is_digit(#[trigger] s[i]) by {
            if i < s.len() - 1 {
                assert(s[i] == decimal(n / 10)[i]);
            }
        }
        assert forall|c: char| !is_digit(c) implies !s.contains(c) by {
            if s.contains(c) {
                let k = choose|k: int| 0 <= k < s.len() && s[k] == c;
                assert(is_digit(s[k]));
            }
        }
    } else {
        let s = decimal(n);
        assert(s.drop_last() =~= Seq::<char>::empty());
        assert(digit_value(digit_char(n as int)) == n);
        assert(digits_value(Seq::<char>::empty()) == 0);
        assert(digits_value(s) == digit_value(s.last()));
        assert forall|c: char| !is_digit(c) implies !s.contains(c) by {
            if s.contains(c) {
                assert(s[0] == c);
            }
        }
    }
}

/// A decimal rendering of a number of two or more digits does not start with `0`.
pub proof fn lemma_decimal_no_leading_zero(n: nat)
    ensures
        decimal(n).len() == 1 || decimal(n)[0] != '0',
    decreases n,
{
    if n >= 10 {
        lemma_decimal_no_leading_zero(n / 10);
        lemma_decimal(n / 10);
        assert(decimal(n)[0] == decimal(n / 10)[0]);
        if decimal(n / 10).len() == 1 {
            assert(n / 10 < 10) by {
                if n / 10 >= 10 {
                    lemma_decimal((n / 10) / 10);
                }
            }
            assert(1 <= n / 10);
        }
    }
}

/// Decimal parsing: a non-empty digit string, with or without one leading
/// `+`, reads as the number it denotes when that fits a `usize` and fails
/// otherwise; the empty text, a lone `+`, and any text with a character that
/// is neither a digit nor that leading `+` fail.
pub proof fn law_parse_usize(s: Seq<char>)
    ensures
        s.len() > 0 && all_digits(s) && digits_value(s) <= usize::MAX ==> parse_usize(s) == Some(
            digits_value(s) as usize,
        ) && parse_usize(seq!['+'] + s) == Some(digits_value(s) as usize),
        all_digits(s) && digits_value(s) > usize::MAX ==> parse_usize(s) is None && parse_usize(
            seq!['+'] + s,
        ) is None,
        parse_usize(Seq::<char>::empty()) is None,
        parse_usize(seq!['+']) is None,
        (exists|k: int| 0 <= k < s.len() && !is_digit(#[trigger] s[k]) && !(k == 0 && s[k] == '+'))
            ==> parse_usize(s) is None,
{
    assert((seq!['+'] + s).drop_first() =~= s);
    assert(seq!['+'].drop_first() =~= Seq::<char>::empty());
    if s.len() > 0 && all_digits(s) {
        assert(is_digit(s[0]));
    }
    if exists|k: int| 0 <= k < s.len() && !is_digit(#[trigger] s[k]) && !(k == 0 && s[k] == '+') {
        let k = choose|k: int| 0 <= k < s.len() && !is_digit(#[trigger] s[k]) && !(k == 0 && s[k] == '+');
        let digits = unsigned(s);
        if s.len() > 0 && s[0] == '+' {
            assert(k > 0);
            assert(digits[k - 1] == s[k]);
        } else {
            assert(digits[k] == s[k]);
        }
    }
}

/// A decimal rendering reads back as the number it renders.
pub proof fn lemma_parse_decimal(n: usize)
    ensures
        parse_usize(decimal(n as nat)) == Some(n),
{
    lemma_decimal(n as nat);
    assert(decimal(n as nat)[0] != '+') by {
        assert(is_digit(decimal(n as nat)[0]));
    }
}

/// Dropping the last digit never increases the value.
proof fn lemma_digits_value_prefix(s: Seq<char>, j: int)
    requires
        0 <= j <= s.len(),
        all_digits(s),
    ensures
        digits_value(s.take(j)) <= digits_value(s),
    decreases s.len() - j,
{
    if j < s.len() {
        lemma_digits_value_prefix(s, j + 1);
        let t = s.take(j + 1);
        assert(t.drop_last() =~= s.take(j));
        assert(is_digit(t.last()));
    } else {
        assert(s.take(j) =~= s);
    }
}

/// The ASCII digit string of a single decimal digit value.
fn digit_str(d: usize) -> (r: &'static str)
    requires
        d < 10,
    ensures
        r@ == seq![digit_char(d as int)],
{
    if d == 0 {
        proof {
            reveal_strlit("0");
        }
        "0"
    } else if d == 1 {
        proof {
            reveal_strlit("1");
        }
        "1"
    } else if d == 2 {
        proof {
            reveal_strlit("2");
        }
        "2"
    } else if d == 3 {
        proof {
            reveal_strlit("3");
        }
        "3"
    } else if d == 4 {
        proof {
            reveal_strlit("4");
        }
        "4"
    } else if d == 5 {
        proof {
            reveal_strlit("5");
        }
        "5"
    } else if d == 6 {
        proof {
            reveal_strlit("6");
        }
        "6"
    } else if d == 7 {
        proof {
            reveal_strlit("7");
        }
        "7"
    } else if d == 8 {
        proof {
            reveal_strlit("8");
        }
        "8"
    } else {
        proof {
            reveal_strlit("9");
        }
        "9"
    }
}

/// Appends the decimal rendering of `n` to `out`.
pub fn push_decimal(out: &mut String, n: usize)
    ensures
        final(out)@ == old(out)@ + decimal(n as nat),
    decreases n,
{
    if n >= 10 {
        push_decimal(out, n / 10);
    }
    let d = n % 10;
    out.append(digit_str(d));
    if n < 10 {
        assert(old(out)@ + decimal(n as nat) =~= old(out)@ + seq![digit_char(n as int)]);
    } else {
        assert(decimal(n as nat) == decimal((n / 10) as nat).push(digit_char(n as int % 10)));
        assert(final(out)@ =~= old(out)@ + decimal(n as nat));
    }
}

/// Reads `s` as `<usize as FromStr>::from_str` does; `None` where it fails.
pub fn parse_usize_chars(s: &Vec<char>) -> (r: Option<usize>)
    ensures
        r == parse_usize(s@),
{
    let start: usize = if s.len() > 0 && s[0] == '+' {
        1
    } else {
        0
    };
    let ghost digits = unsigned(s@);
    assert(digits =~= s@.skip(start as int));
    if start == s.len() {
        assert(digits.len() == 0);
        assert(parse_usize(s@).is_none());
        return None;
    }
    // Every character after the optional sign must be a digit.

    let mut i: usize = start;
    while i < s.len()
        invariant
            start <= i <= s.len(),
            digits == unsigned(s@),
            digits =~= s@.skip(start as int),
            forall|k: int| start <= k < i ==> is_digit(#[trigger] s@[k]),
        decreases s.len() - i,
    {
        let c = s[i];
        if !('0' <= c && c <= '9') {
            assert(!is_digit(digits[i - start]));
            return None;
        }
        i = i + 1;
    }
    assert(all_digits(digits)) by {
        assert forall|k: int| 0 <= k < digits.len() implies is_digit(#[trigger] digits[k]) by {
            assert(digits[k] == s@[k + start]);
        }
    }
    // Accumulate the value, failing as soon as it no longer fits.

    let mut value: usize = 0;
    let mut j: usize = start;
    assert(digits.take(0) =~= Seq::<char>::empty());
    while j < s.len()
        invariant
            start <= j <= s.len(),
            digits == unsigned(s@),
            digits =~= s@.skip(start as int),
            all_digits(digits),
            value == digits_value(digits.take(j - start)),
        decreases s.len() - j,
    {
        let c = s[j];
        let ghost t = digits.take(j - start + 1);
        assert(t.drop_last() =~= digits.take(j - start));
        assert(t.last() == c);
        assert(is_digit(digits[j - start]));
        let d = (c as u32 - '0' as u32) as usize;
        assert(d == digit_value(c));
        assert(digits_value(t) == value * 10 + d);
        let next = match value.checked_mul(10) {
            Some(m) => m.checked_add(d),
            None => None,
        };
        match next {
            Some(v) => {
                value = v;
            },
            None => {
                proof {
                    lemma_digits_value_prefix(digits, j - start + 1);
                    assert(value * 10 + d > usize::MAX);
                    assert(digits_value(digits) > usize::MAX);
                    assert(parse_usize(s@).is_none());
                }
                return None;
            },
        }
        j = j + 1;
    }
    assert(digits.take(digits.len() as int) =~= digits);
    Some(value)
}

} // verus!
