//! Character-level helpers for the board's text format: splitting, trimming
//! and decimal numbers.
use vstd::prelude::*;

verus! {

/// White space as Unicode defines it (what `str::trim` removes).
pub open spec fn is_ws(c: char) -> bool {
    c == ' ' || ('\t' <= c && c <= '\r') || c == '\u{85}' || c == '\u{a0}' || c == '\u{1680}' || (
    '\u{2000}' <= c && c <= '\u{200a}') || c == '\u{2028}' || c == '\u{2029}' || c == '\u{202f}'
        || c == '\u{205f}' || c == '\u{3000}'
}

pub fn is_ws_exec(c: char) -> (r: bool)
    ensures
        r == is_ws(c),
{
    c == ' ' || ('\t' <= c && c <= '\r') || c == '\u{85}' || c == '\u{a0}' || c == '\u{1680}' || (
    '\u{2000}' <= c && c <= '\u{200a}') || c == '\u{2028}' || c == '\u{2029}' || c == '\u{202f}'
        || c == '\u{205f}' || c == '\u{3000}'
}

pub open spec fn trim_start(s: Seq<char>) -> Seq<char>
    decreases s.len(),
{
    if s.len() > 0 && is_ws(s[0]) {
        trim_start(s.drop_first())
    } else {
        s
    }
}

pub open spec fn trim_end(s: Seq<char>) -> Seq<char>
    decreases s.len(),
{
    if s.len() > 0 && is_ws(s.last()) {
        trim_end(s.drop_last())
    } else {
        s
    }
}

/// `s` without leading and trailing white space.
pub open spec fn trim(s: Seq<char>) -> Seq<char> {
    trim_end(trim_start(s))
}

/// The pieces of `s` between occurrences of `sep` (as `str::split` gives
/// them: one piece more than there are separators).
pub open spec fn split_on(s: Seq<char>, sep: char) -> Seq<Seq<char>>
    decreases s.len(),
{
    if s.len() == 0 {
        seq![Seq::empty()]
    } else {
        let pre = split_on(s.drop_last(), sep);
        if s.last() == sep {
            pre.push(Seq::empty())
        } else {
            pre.update(pre.len() - 1, pre.last().push(s.last()))
        }
    }
}

pub proof fn lemma_split_nonempty(s: Seq<char>, sep: char)
    ensures
        split_on(s, sep).len() >= 1,
    decreases s.len(),
{
    if s.len() > 0 {
        lemma_split_nonempty(s.drop_last(), sep);
    }
}

/// The views of a sequence of character vectors.
pub open spec fn views(v: Seq<Vec<char>>) -> Seq<Seq<char>> {
    Seq::new(v.len(), |i: int| v[i]@)
}

/// The characters of `s`.
pub fn chars_of(s: &str) -> (r: Vec<char>)
    ensures
        r@ == s@,
{
    let len = s.unicode_len();
    let mut out: Vec<char> = Vec::new();
    let mut i: usize = 0;
    while i < len
        invariant
            len == s@.len(),
            0 <= i <= len,
            out@ == s@.subrange(0, i as int),
        decreases len - i,
    {
        let c = s.get_char(i);
        out.push(c);
        i = i + 1;
        assert(out@ =~= s@.subrange(0, i as int));
    }
    assert(out@ =~= s@);
    out
}

/// Splits `s` at every `sep`.
pub fn split_chars(s: &Vec<char>, sep: char) -> (r: Vec<Vec<char>>)
    ensures
        views(r@) == split_on(s@, sep),
{
    let mut out: Vec<Vec<char>> = Vec::new();
    let mut cur: Vec<char> = Vec::new();
    let mut i: usize = 0;
    assert(views(out@).push(cur@) =~= split_on(s@.subrange(0, 0), sep));
    while i < s.len()
        invariant
            0 <= i <= s.len(),
            views(out@).push(cur@) == split_on(s@.subrange(0, i as int), sep),
        decreases s.len() - i,
    {
        let c = s[i];
        let ghost pre = s@.subrange(0, i as int);
        assert(s@.subrange(0, i as int + 1).drop_last() =~= pre);
        if c == sep {
            let mut done: Vec<char> = Vec::new();
            std::mem::swap(&mut cur, &mut done);
            out.push(done);
            assert(views(out@).push(cur@) =~= split_on(pre, sep).push(Seq::empty()));
        } else {
            cur.push(c);
            assert(views(out@).push(cur@) =~= split_on(pre, sep).update(
                split_on(pre, sep).len() - 1,
                split_on(pre, sep).last().push(c),
            ));
        }
        i = i + 1;
    }
    out.push(cur);
    assert(s@.subrange(0, s@.len() as int) =~= s@);
    assert(views(out@) =~= split_on(s@, sep));
    out
}

proof fn lemma_trim_start_step(s: Seq<char>, i: int)
    requires
        0 <= i < s.len(),
        is_ws(s[i]),
    ensures
        trim_start(s.subrange(i, s.len() as int)) == trim_start(s.subrange(i + 1, s.len() as int)),
{
    assert(s.subrange(i, s.len() as int).drop_first() =~= s.subrange(i + 1, s.len() as int));
}

proof fn lemma_trim_end_step(s: Seq<char>, j: int)
    requires
        0 < j <= s.len(),
        is_ws(s[j - 1]),
    ensures
        trim_end(s.subrange(0, j)) == trim_end(s.subrange(0, j - 1)),
{
    assert(s.subrange(0, j).drop_last() =~= s.subrange(0, j - 1));
}

/// `s` without leading and trailing white space.
pub fn trim_chars(s: &Vec<char>) -> (r: Vec<char>)
    ensures
        r@ == trim(s@),
{
    let mut a: usize = 0;
    assert(s@.subrange(0, s@.len() as int) =~= s@);
    while a < s.len() && is_ws_exec(s[a])
        invariant
            0 <= a <= s.len(),
            trim_start(s@) == trim_start(s@.subrange(a as int, s@.len() as int)),
        decreases s.len() - a,
    {
        proof {
            lemma_trim_start_step(s@, a as int);
        }
        a = a + 1;
    }
    let ghost t = s@.subrange(a as int, s@.len() as int);
    assert(trim_start(s@) == t);
    let mut b: usize = s.len();
    assert(t.subrange(0, t.len() as int) =~= t);
    while b > a && is_ws_exec(s[b - 1])
        invariant
            a <= b <= s.len(),
            t == s@.subrange(a as int, s@.len() as int),
            trim_end(t) == trim_end(t.subrange(0, b - a)),
        decreases b,
    {
        proof {
            assert(t[b - a - 1] == s@[b - 1]);
            lemma_trim_end_step(t, b - a);
        }
        b = b - 1;
    }
    let mut out: Vec<char> = Vec::new();
    let mut k: usize = a;
    while k < b
        invariant
            a <= k <= b,
            b <= s.len(),
            out@ == s@.subrange(a as int, k as int),
        decreases b - k,
    {
        out.push(s[k]);
        k = k + 1;
        assert(out@ =~= s@.subrange(a as int, k as int));
    }
    assert(out@ =~= t.subrange(0, b - a));
    out
}

pub open spec fn is_digit(c: char) -> bool {
    '0' <= c && c <= '9'
}

/// The decimal value of a string of digits.
pub open spec fn digits_value(s: Seq<char>) -> int
    decreases s.len(),
{
    if s.len() == 0 {
        0
    } else {
        digits_value(s.drop_last()) * 10 + (s.last() as int - '0' as int)
    }
}

pub open spec fn all_digits(s: Seq<char>) -> bool {
    forall|i: int| 0 <= i < s.len() ==> is_digit(#[trigger] s[i])
}

/// What `str::parse` gives for an unsigned integer type whose largest value
/// is `max`: an optional `+`, then at least one digit, within range.
pub open spec fn parse_unsigned(s: Seq<char>, max: int) -> Option<int> {
    let d = if s.len() > 0 && s[0] == '+' {
        s.drop_first()
    } else {
        s
    };
    if d.len() > 0 && all_digits(d) && digits_value(d) <= max {
        Some(digits_value(d))
    } else {
        None
    }
}

proof fn lemma_digits_monotone(s: Seq<char>, i: int)
    requires
        0 <= i <= s.len(),
        all_digits(s),
    ensures
        digits_value(s.subrange(0, i)) <= digits_value(s),
        0 <= digits_value(s.subrange(0, i)),
    decreases s.len() - i,
{
    if i < s.len() {
        lemma_digits_monotone(s, i + 1);
        assert(s.subrange(0, i + 1).drop_last() =~= s.subrange(0, i));
        assert(is_digit(s[i]));
    } else {
        assert(s.subrange(0, i) =~= s);
        lemma_digits_nonneg(s);
    }
}

proof fn lemma_digits_nonneg(s: Seq<char>)
    requires
        all_digits(s),
    ensures
        0 <= digits_value(s),
    decreases s.len(),
{
    if s.len() > 0 {
        assert(is_digit(s[s.len() - 1]));
        lemma_digits_nonneg(s.drop_last());
    }
}

/// Parses `s[from..to]` as an unsigned number no larger than `max`.
pub fn parse_number(s: &Vec<char>, from: usize, to: usize, max: u32) -> (r: Option<u32>)
    requires
        from <= to <= s@.len(),
        max <= 65535,
    ensures
        match parse_unsigned(s@.subrange(from as int, to as int), max as int) {
            Some(v) => r == Some(v as u32) && 0 <= v <= max,
            None => r is None,
        },
{
    let ghost w = s@.subrange(from as int, to as int);
    let mut a = from;
    if a < to && s[a] == '+' {
        a = a + 1;
    }
    let ghost d = s@.subrange(a as int, to as int);
    assert(d =~= (if w.len() > 0 && w[0] == '+' { w.drop_first() } else { w }));
    if a == to {
        return None;
    }
    let mut v: u32 = 0;
    let mut i: usize = a;
    while i < to
        invariant
            a <= i <= to,
            to <= s@.len(),
            d == s@.subrange(a as int, to as int),
            w == s@.subrange(from as int, to as int),
            d == (if w.len() > 0 && w[0] == '+' { w.drop_first() } else { w }),
            d.len() > 0,
            max <= 65535,
            v <= max,
            v == digits_value(d.subrange(0, i - a)),
            all_digits(d.subrange(0, i - a)),
        decreases to - i,
    {
        let c = s[i];
        if !('0' <= c && c <= '9') {
            assert(!is_digit(d[i - a]));
            assert(!all_digits(d));
            assert(parse_unsigned(w, max as int) is None);
            return None;
        }
        assert(d.subrange(0, i - a + 1).drop_last() =~= d.subrange(0, i - a));
        let nv: u32 = v * 10 + (c as u32 - '0' as u32);
        assert(d.subrange(0, i - a + 1).last() == c);
        assert(nv == digits_value(d.subrange(0, i - a + 1)));
        if nv > max {
            proof {
                assert(all_digits(d.subrange(0, i - a + 1)));
                if all_digits(d) {
                    lemma_digits_monotone(d, i - a + 1);
                }
                assert(parse_unsigned(w, max as int) is None);
            }
            return None;
        }
        v = nv;
        i = i + 1;
    }
    assert(d.subrange(0, d.len() as int) =~= d);
    Some(v)
}

/// The first index at or after `from` that holds `c`, or the length of `s`.
pub open spec fn first_from(s: Seq<char>, c: char, from: int) -> int
    decreases s.len() - from,
{
    if from >= s.len() {
        s.len() as int
    } else if s[from] == c {
        from
    } else {
        first_from(s, c, from + 1)
    }
}

pub fn find_char(s: &Vec<char>, c: char, from: usize) -> (r: usize)
    requires
        from <= s@.len(),
    ensures
        r == first_from(s@, c, from as int),
        from <= r <= s@.len(),
{
    let mut i = from;
    while i < s.len() && s[i] != c
        invariant
            from <= i <= s@.len(),
            first_from(s@, c, from as int) == first_from(s@, c, i as int),
        decreases s.len() - i,
    {
        i = i + 1;
    }
    i
}

/// The first index at or after `from` that does not hold a digit, or the
/// length of `s`.
pub open spec fn digits_end(s: Seq<char>, from: int) -> int
    decreases s.len() - from,
{
    if from >= s.len() {
        s.len() as int
    } else if !is_digit(s[from]) {
        from
    } else {
        digits_end(s, from + 1)
    }
}

pub fn skip_digits(s: &Vec<char>, from: usize) -> (r: usize)
    requires
        from <= s@.len(),
    ensures
        r == digits_end(s@, from as int),
        from <= r <= s@.len(),
{
    let mut i = from;
    while i < s.len() && '0' <= s[i] && s[i] <= '9'
        invariant
            from <= i <= s@.len(),
            digits_end(s@, from as int) == digits_end(s@, i as int),
        decreases s.len() - i,
    {
        i = i + 1;
    }
    i
}

pub open spec fn digit_of(d: int) -> char {
    (d + 48) as u8 as char
}

/// The decimal notation of `v`, without leading zeros.
pub open spec fn dec(v: nat) -> Seq<char>
    decreases v,
{
    if v < 10 {
        seq![digit_of(v as int)]
    } else {
        dec(v / 10).push(digit_of((v % 10) as int))
    }
}

/// The name given to player `i`: `player-` and its decimal index.
pub open spec fn player_name_spec(i: nat) -> Seq<char> {
    seq!['p', 'l', 'a', 'y', 'e', 'r', '-'] + dec(i)
}

proof fn lemma_digit(d: int)
    requires
        0 <= d < 10,
    ensures
        is_digit(digit_of(d)),
        digit_of(d) as int - '0' as int == d,
        digit_of(d) != '+',
{
    assert('0' as int == 48);
    assert('9' as int == 57);
    assert('+' as int == 43);
    assert(((d + 48) as u8 as char) as int == d + 48);
}

proof fn lemma_dec_digits(v: nat)
    ensures
        dec(v).len() > 0,
        all_digits(dec(v)),
        digits_value(dec(v)) == v,
        dec(v)[0] != '+',
    decreases v,
{
    if v < 10 {
        lemma_digit(v as int);
        assert(dec(v).drop_last() =~= Seq::<char>::empty());
        assert(digits_value(dec(v)) == digits_value(Seq::<char>::empty()) * 10 + v);
    } else {
        lemma_dec_digits(v / 10);
        lemma_digit((v % 10) as int);
        let s = dec(v);
        assert(s.drop_last() == dec(v / 10));
        assert forall|i: int| 0 <= i < s.len() implies is_digit(#[trigger] s[i]) by {
            if i < s.len() - 1 {
                assert(s[i] == dec(v / 10)[i]);
            }
        }
        assert(s[0] == dec(v / 10)[0]);
        assert(s.last() == digit_of((v % 10) as int));
        assert(digits_value(s) == digits_value(dec(v / 10)) * 10 + (v % 10));
        assert((v / 10) * 10 + v % 10 == v);
    }
}

/// The decimal notation of a number: digits only, with no white space at
/// either end, so trimming keeps it.
pub proof fn lemma_dec_shape(v: nat)
    ensures
        dec(v).len() > 0,
        all_digits(dec(v)),
        forall|i: int| 0 <= i < dec(v).len() ==> #[trigger] dec(v)[i] != ',',
        trim(dec(v)) == dec(v),
{
    lemma_dec_digits(v);
    let s = dec(v);
    assert forall|i: int| 0 <= i < s.len() implies #[trigger] s[i] != ',' by {
        assert(is_digit(s[i]));
    }
    assert(is_digit(s[0]));
    assert(is_digit(s.last()));
    assert(!is_ws(s[0]));
    assert(!is_ws(s.last()));
    assert(trim_start(s) == s);
    assert(trim_end(s) == s);
}

/// Writing a number in decimal and reading it back, as `str::parse` does,
/// gives the number.
pub proof fn lemma_dec_round_trip(v: nat, max: int)
    requires
        v <= max,
    ensures
        parse_unsigned(dec(v), max) == Some(v as int),
{
    lemma_dec_digits(v);
}

} // verus!
