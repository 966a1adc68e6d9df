//! Character-level text helpers: Unicode whitespace, trimming, splitting on a
//! separator, and decimal parsing of unsigned integers.

use vstd::prelude::*;

verus! {

/// The Unicode `White_Space` property, the set of characters that
/// `char::is_whitespace` accepts.
pub open spec fn is_white_space(c: char) -> bool {
    let u = c as u32;
    ||| (9 <= u && u <= 13)
    ||| u == 32
    ||| u == 0x85
    ||| u == 0xa0
    ||| u == 0x1680
    ||| (0x2000 <= u && u <= 0x200a)
    ||| u == 0x2028
    ||| u == 0x2029
    ||| u == 0x202f
    ||| u == 0x205f
    ||| u == 0x3000
}

/// Drops the leading whitespace of `s`.
pub open spec fn trim_start(s: Seq<char>) -> Seq<char>
    decreases s.len(),
{
    if s.len() > 0 && is_white_space(s[0]) {
        trim_start(s.drop_first())
    } else {
        s
    }
}

/// Drops the trailing whitespace of `s`.
pub open spec fn trim_end(s: Seq<char>) -> Seq<char>
    decreases s.len(),
{
    if s.len() > 0 && is_white_space(s.last()) {
        trim_end(s.drop_last())
    } else {
        s
    }
}

/// `s` without its leading and trailing whitespace (what `str::trim` returns).
pub open spec fn trimmed(s: Seq<char>) -> Seq<char> {
    trim_end(trim_start(s))
}

/// Drops every trailing occurrence of `c` (what `str::trim_end_matches` with a
/// single character returns).
pub open spec fn trim_end_char(s: Seq<char>, c: char) -> Seq<char>
    decreases s.len(),
{
    if s.len() > 0 && s.last() == c {
        trim_end_char(s.drop_last(), c)
    } else {
        s
    }
}

/// `trim_end_char(s, c)` is `s` with exactly its final run of `c` removed:
/// what is removed is nothing but `c`, and what remains does not end in `c`.
pub proof fn lemma_trim_end_char_parts(s: Seq<char>, c: char)
    ensures
        trim_end_char(s, c).len() <= s.len(),
        s == trim_end_char(s, c) + Seq::new(
            (s.len() - trim_end_char(s, c).len()) as nat,
            |i: int| c,
        ),
        trim_end_char(s, c).len() == 0 || trim_end_char(s, c).last() != c,
    decreases s.len(),
{
    let t = trim_end_char(s, c);
    if s.len() > 0 && s.last() == c {
        lemma_trim_end_char_parts(s.drop_last(), c);
        let k = (s.len() - t.len()) as nat;
        assert(s =~= t + Seq::new(k, |i: int| c)) by {
            assert(s.drop_last() =~= t + Seq::new((k - 1) as nat, |i: int| c));
            assert forall|j: int| 0 <= j < s.len() implies s[j] == (t + Seq::new(k, |i: int| c))[j] by {
                if j < s.len() - 1 {
                    assert(s[j] == s.drop_last()[j]);
                }
            }
        }
    } else {
        assert(s =~= t + Seq::new(0, |i: int| c));
    }
}

/// Removing the trailing `c` of a text that is padded with `c` gives back the
/// text, where the text does not itself end in `c`.
pub proof fn lemma_trim_end_char_padded(s: Seq<char>, c: char, k: nat)
    requires
        s.len() == 0 || s.last() != c,
    ensures
        trim_end_char(s + Seq::new(k, |i: int| c), c) == s,
    decreases k,
{
    let p = s + Seq::new(k, |i: int| c);
    if k == 0 {
        assert(p =~= s);
    } else {
        assert(p.drop_last() =~= s + Seq::new((k - 1) as nat, |i: int| c));
        lemma_trim_end_char_padded(s, c, (k - 1) as nat);
    }
}

/// The pieces of `s` between occurrences of `sep`, in order (what
/// `str::split` with a single character yields). There is always at least one.
pub open spec fn split_on(s: Seq<char>, sep: char) -> Seq<Seq<char>>
    decreases s.len(),
{
    if s.len() == 0 {
        seq![Seq::<char>::empty()]
    } else {
        let init = split_on(s.drop_last(), sep);
        if s.last() == sep {
            init.push(Seq::<char>::empty())
        } else {
            init.update(init.len() - 1, init.last().push(s.last()))
        }
    }
}

/// The pieces `ps` written one after another with `sep` between each two.
pub open spec fn joined(ps: Seq<Seq<char>>, sep: char) -> Seq<char>
    decreases ps.len(),
{
    if ps.len() <= 1 {
        if ps.len() == 0 {
            Seq::<char>::empty()
        } else {
            ps[0]
        }
    } else {
        joined(ps.drop_last(), sep) + seq![sep] + ps.last()
    }
}

/// Appending text without `sep` extends the last piece by that text.
proof fn lemma_split_on_append(s: Seq<char>, t: Seq<char>, sep: char)
    requires
        !t.contains(sep),
    ensures
        split_on(s + t, sep) == split_on(s, sep).update(
            split_on(s, sep).len() - 1,
            split_on(s, sep).last() + t,
        ),
        split_on(s, sep).len() >= 1,
    decreases t.len(),
{
    lemma_split_on_nonempty(s, sep);
    if t.len() == 0 {
        assert(s + t =~= s);
        assert(split_on(s, sep).last() + t =~= split_on(s, sep).last());
        assert(split_on(s, sep).update(split_on(s, sep).len() - 1, split_on(s, sep).last())
            =~= split_on(s, sep));
    } else {
        let u = t.drop_last();
        assert(!u.contains(sep)) by {
            if u.contains(sep) {
                let j = choose|j: int| 0 <= j < u.len() && u[j] == sep;
                assert(t[j] == sep);
            }
        }
        assert(t.last() != sep) by {
            assert(t[t.len() - 1] == t.last());
        }
        lemma_split_on_append(s, u, sep);
        assert((s + t).drop_last() =~= s + u);
        assert((s + t).last() == t.last());
        let init = split_on(s, sep);
        assert(split_on(s + t, sep) =~= init.update(init.len() - 1, init.last() + t)) by {
            assert((init.last() + u).push(t.last()) =~= init.last() + t);
        }
    }
}

proof fn lemma_split_on_nonempty(s: Seq<char>, sep: char)
    ensures
        split_on(s, sep).len() >= 1,
    decreases s.len(),
{
    if s.len() > 0 {
        lemma_split_on_nonempty(s.drop_last(), sep);
    }
}

/// Splitting pieces joined by `sep` gives back the pieces, where no piece
/// holds `sep`: each piece comes back whole, whatever its length.
pub proof fn lemma_split_on_joined(ps: Seq<Seq<char>>, sep: char)
    requires
        ps.len() >= 1,
        forall|k: int| 0 <= k < ps.len() ==> !(#[trigger] ps[k]).contains(sep),
    ensures
        split_on(joined(ps, sep), sep) == ps,
    decreases ps.len(),
{
    if ps.len() == 1 {
        let e = Seq::<char>::empty();
        lemma_split_on_append(e, ps[0], sep);
        assert(e + ps[0] =~= ps[0]);
        assert(split_on(e, sep) =~= seq![e]);
        assert(e + ps[0] =~= ps[0]);
        assert(seq![e].update(0, e + ps[0]) =~= ps);
    } else {
        let init = ps.drop_last();
        assert forall|k: int| 0 <= k < init.len() implies !(#[trigger] init[k]).contains(sep) by {
            assert(init[k] == ps[k]);
        }
        lemma_split_on_joined(init, sep);
        let j = joined(init, sep);
        let js = j + seq![sep];
        assert(js.drop_last() =~= j);
        assert(js.last() == sep);
        assert(split_on(js, sep) == init.push(Seq::<char>::empty()));
        assert(!ps.last().contains(sep)) by {
            assert(ps[ps.len() - 1] == ps.last());
        }
        lemma_split_on_append(js, ps.last(), sep);
        let e = Seq::<char>::empty();
        assert(e + ps.last() =~= ps.last());
        assert(init.push(e).update(init.len() as int, e + ps.last()) =~= ps);
    }
}

/// Every character of `s` is whitespace.
pub open spec fn all_white_space(s: Seq<char>) -> bool {
    forall|i: int| 0 <= i < s.len() ==> is_white_space(#[trigger] s[i])
}

proof fn lemma_trim_start_padded(l: Seq<char>, rest: Seq<char>)
    requires
        all_white_space(l),
    ensures
        trim_start(l + rest) == trim_start(rest),
    decreases l.len(),
{
    if l.len() == 0 {
        assert(l + rest =~= rest);
    } else {
        assert((l + rest)[0] == l[0]);
        assert((l + rest).drop_first() =~= l.drop_first() + rest);
        assert(all_white_space(l.drop_first())) by {
            assert forall|i: int| 0 <= i < l.drop_first().len() implies is_white_space(
                #[trigger] l.drop_first()[i],
            ) by {
                assert(l.drop_first()[i] == l[i + 1]);
            }
        }
        lemma_trim_start_padded(l.drop_first(), rest);
    }
}

proof fn lemma_trim_end_padded(rest: Seq<char>, r: Seq<char>)
    requires
        all_white_space(r),
    ensures
        trim_end(rest + r) == trim_end(rest),
    decreases r.len(),
{
    if r.len() == 0 {
        assert(rest + r =~= rest);
    } else {
        assert((rest + r).last() == r.last());
        assert(is_white_space(r[r.len() - 1]));
        assert((rest + r).drop_last() =~= rest + r.drop_last());
        assert(all_white_space(r.drop_last())) by {
            assert forall|i: int| 0 <= i < r.drop_last().len() implies is_white_space(
                #[trigger] r.drop_last()[i],
            ) by {
                assert(r.drop_last()[i] == r[i]);
            }
        }
        lemma_trim_end_padded(rest, r.drop_last());
    }
}

/// Trimming a text padded with whitespace on both sides gives back the text,
/// whole, where it neither starts nor ends with whitespace.
pub proof fn lemma_trimmed_padded(l: Seq<char>, c: Seq<char>, r: Seq<char>)
    requires
        all_white_space(l),
        all_white_space(r),
        c.len() == 0 || (!is_white_space(c[0]) && !is_white_space(c.last())),
    ensures
        trimmed(l + c + r) == c,
{
    assert(l + c + r =~= l + (c + r));
    lemma_trim_start_padded(l, c + r);
    if c.len() == 0 {
        assert(c + r =~= r);
        lemma_trim_start_padded(r, Seq::<char>::empty());
        assert(r + Seq::<char>::empty() =~= r);
        assert(trim_start(Seq::<char>::empty()) =~= Seq::<char>::empty());
        assert(trim_end(Seq::<char>::empty()) =~= c);
    } else {
        assert((c + r)[0] == c[0]);
        assert(trim_start(c + r) == c + r);
        lemma_trim_end_padded(c, r);
        assert(c.last() == c[c.len() - 1]);
        assert(trim_end(c) == c);
    }
}

/// The character pieces named by a list of `(start, end)` positions in `s`.
pub open spec fn pieces(s: Seq<char>, bounds: Seq<(usize, usize)>) -> Seq<Seq<char>> {
    bounds.map_values(|b: (usize, usize)| s.subrange(b.0 as int, b.1 as int))
}

/// Whether `c` has the Unicode `White_Space` property.
pub fn is_whitespace(c: char) -> (r: bool)
    ensures
        r == is_white_space(c),
{
    let u = c as u32;
    (9 <= u && u <= 13) || u == 32 || u == 0x85 || u == 0xa0 || u == 0x1680 || (0x2000 <= u && u
        <= 0x200a) || u == 0x2028 || u == 0x2029 || u == 0x202f || u == 0x205f || u == 0x3000
}

/// `s` without leading and trailing whitespace.
pub fn trim(s: &str) -> (r: &str)
    ensures
        r@ == trimmed(s@),
{
    let n = s.unicode_len();
    let mut a: usize = 0;
    assert(s@.subrange(0, n as int) =~= s@);
    while a < n && is_whitespace(s.get_char(a))
        invariant
            a <= n,
            n == s@.len(),
            trim_start(s@) == trim_start(s@.subrange(a as int, n as int)),
        decreases n - a,
    {
        proof {
            let t = s@.subrange(a as int, n as int);
            assert(t[0] == s@[a as int]);
            assert(t.drop_first() =~= s@.subrange(a + 1, n as int));
        }
        a = a + 1;
    }
    proof {
        let t = s@.subrange(a as int, n as int);
        if a < n {
            assert(t[0] == s@[a as int]);
        }
        assert(trim_start(t) == t);
    }
    let mut b: usize = n;
    while b > a && is_whitespace(s.get_char(b - 1))
        invariant
            a <= b <= n,
            n == s@.len(),
            trim_end(s@.subrange(a as int, n as int)) == trim_end(s@.subrange(a as int, b as int)),
        decreases b - a,
    {
        proof {
            let t = s@.subrange(a as int, b as int);
            assert(t.last() == s@[b - 1]);
            assert(t.drop_last() =~= s@.subrange(a as int, b - 1));
        }
        b = b - 1;
    }
    proof {
        let t = s@.subrange(a as int, b as int);
        if b > a {
            assert(t.last() == s@[b - 1]);
        }
        assert(trim_end(t) == t);
    }
    s.substring_char(a, b)
}

/// Whether `s` holds nothing but whitespace.
pub fn is_blank(s: &str) -> (r: bool)
    ensures
        r == (trimmed(s@).len() == 0),
{
    let t = trim(s);
    t.unicode_len() == 0
}

/// `s` without its trailing occurrences of `c`.
pub fn trim_end_matches_char(s: &str, c: char) -> (r: &str)
    ensures
        r@ == trim_end_char(s@, c),
{
    let n = s.unicode_len();
    let mut b: usize = n;
    assert(s@.subrange(0, n as int) =~= s@);
    while b > 0 && s.get_char(b - 1) == c
        invariant
            b <= n,
            n == s@.len(),
            trim_end_char(s@, c) == trim_end_char(s@.subrange(0, b as int), c),
        decreases b,
    {
        proof {
            let t = s@.subrange(0, b as int);
            assert(t.last() == s@[b - 1]);
            assert(t.drop_last() =~= s@.subrange(0, b - 1));
        }
        b = b - 1;
    }
    proof {
        assert(s@.subrange(0, n as int) =~= s@);
        let t = s@.subrange(0, b as int);
        if b > 0 {
            assert(t.last() == s@[b - 1]);
        }
        assert(trim_end_char(t, c) == t);
    }
    s.substring_char(0, b)
}

/// The `(start, end)` character positions of the pieces of `s` between
/// occurrences of `sep`.
#[verifier::spinoff_prover]
pub fn split_bounds(s: &str, sep: char) -> (r: Vec<(usize, usize)>)
    ensures
        r@.len() >= 1,
        forall|k: int| 0 <= k < r@.len() ==> #[trigger] r@[k].0 <= r@[k].1 <= s@.len(),
        pieces(s@, r@) == split_on(s@, sep),
{
    let n = s.unicode_len();
    let mut r: Vec<(usize, usize)> = Vec::new();
    let mut start: usize = 0;
    let mut i: usize = 0;
    proof {
        assert(s@.take(0) =~= Seq::<char>::empty());
        assert(pieces(s@, r@).push(s@.subrange(0, 0)) =~= seq![Seq::<char>::empty()]);
    }
    while i < n
        invariant
            start <= i <= n,
            n == s@.len(),
            forall|k: int| 0 <= k < r@.len() ==> #[trigger] r@[k].0 <= r@[k].1 <= start,
            split_on(s@.take(i as int), sep) == pieces(s@, r@).push(
                s@.subrange(start as int, i as int),
            ),
        decreases n - i,
    {
        let c = s.get_char(i);
        proof {
            let t = s@.take(i + 1);
            assert(t.drop_last() =~= s@.take(i as int));
            assert(t.last() == c);
        }
        if c == sep {
            let ghost old_r = r@;
            let ghost old_start = start;
            r.push((start, i));
            proof {
                assert(pieces(s@, r@) =~= pieces(s@, old_r).push(
                    s@.subrange(start as int, i as int),
                ));
                assert(s@.subrange(i + 1, i + 1) =~= Seq::<char>::empty());
            }
            start = i + 1;
            assert forall|k: int| 0 <= k < r@.len() implies #[trigger] r@[k].0 <= r@[k].1 <= start by {
                assert(old_start <= i);
                if k < old_r.len() {
                    assert(old_r[k].0 <= old_r[k].1 <= old_start);
                    assert(r@[k] == old_r[k]);
                } else {
                    assert(r@[k] == (old_start, i));
                }
            }
        } else {
            proof {
                let init = pieces(s@, r@).push(s@.subrange(start as int, i as int));
                assert(s@.subrange(start as int, i as int).push(c) =~= s@.subrange(
                    start as int,
                    i + 1,
                ));
                assert(init.update(init.len() - 1, init.last().push(c)) =~= pieces(s@, r@).push(
                    s@.subrange(start as int, i + 1),
                ));
            }
        }
        i = i + 1;
    }
    let ghost old_r = r@;
    r.push((start, n));
    proof {
        assert(s@.take(n as int) =~= s@);
        assert(pieces(s@, r@) =~= pieces(s@, old_r).push(s@.subrange(start as int, n as int)));
    }
    r
}

/// Whether `c` is an ASCII decimal digit.
pub open spec fn is_digit(c: char) -> bool {
    48 <= (c as u32) && (c as u32) <= 57
}

/// The value of a decimal digit.
pub open spec fn digit_value(c: char) -> nat {
    if is_digit(c) {
        (c as u32 - 48) as nat
    } else {
        0
    }
}

/// The value of a string of decimal digits, most significant first.
pub open spec fn decimal_value(s: Seq<char>) -> nat
    decreases s.len(),
{
    if s.len() == 0 {
        0
    } else {
        decimal_value(s.drop_last()) * 10 + digit_value(s.last())
    }
}

/// The digits part of an unsigned number: `s` without one leading `+`.
pub open spec fn unsigned_digits(s: Seq<char>) -> Seq<char> {
    if s.len() > 0 && s[0] == '+' {
        s.drop_first()
    } else {
        s
    }
}

/// Whether every character of `d` is a decimal digit.
pub open spec fn all_digits(d: Seq<char>) -> bool {
    forall|i: int| 0 <= i < d.len() ==> is_digit(#[trigger] d[i])
}

/// What `usize::from_str` accepts and returns: an optional `+` followed by at
/// least one decimal digit, with a value that fits in a `usize`.
pub open spec fn parse_usize_spec(s: Seq<char>) -> Option<usize> {
    let d = unsigned_digits(s);
    if d.len() > 0 && all_digits(d) && decimal_value(d) <= usize::MAX {
        Some(decimal_value(d) as usize)
    } else {
        None
    }
}

pub proof fn lemma_decimal_value_grows(s: Seq<char>, i: int)
    requires
        0 <= i <= s.len(),
    ensures
        decimal_value(s.take(i)) <= decimal_value(s),
    decreases s.len() - i,
{
    if i < s.len() {
        lemma_decimal_value_grows(s, i + 1);
        assert(s.take(i + 1).drop_last() =~= s.take(i));
    } else {
        assert(s.take(i) =~= s);
    }
}

/// Parses a decimal unsigned integer the way `str::parse::<usize>` does.
pub fn parse_usize(s: &str) -> (r: Option<usize>)
    ensures
        r == parse_usize_spec(s@),
{
    let n = s.unicode_len();
    let mut i: usize = 0;
    if n > 0 && s.get_char(0) == '+' {
        i = 1;
    }
    let ghost d = unsigned_digits(s@);
    let ghost first = i;
    proof {
        assert(d =~= s@.subrange(first as int, n as int));
    }
    if i == n {
        return None;
    }
    let mut acc: usize = 0;
    while i < n
        invariant
            first <= i <= n,
            n == s@.len(),
            d == s@.subrange(first as int, n as int),
            d == unsigned_digits(s@),
            forall|k: int| 0 <= k < i - first ==> is_digit(#[trigger] d[k]),
            acc == decimal_value(d.take(i - first)),
        decreases n - i,
    {
        let c = s.get_char(i);
        proof {
            assert(d[i - first] == c);
            assert(d.take(i - first + 1).drop_last() =~= d.take(i - first));
        }
        let u = c as u32;
        if u < 48 || u > 57 {
            assert(!is_digit(d[i - first]));
            assert(d.len() == n - first);
            assert(!all_digits(d));
            return None;
        }
        let v = (u - 48) as usize;
        match acc.checked_mul(10) {
            Some(m) => match m.checked_add(v) {
                Some(a) => {
                    acc = a;
                },
                None => {
                    proof {
                        assert(d.take(i - first + 1).last() == c);
                        assert(decimal_value(d.take(i - first + 1)) == acc * 10 + v);
                        lemma_none_when_large(d, i - first + 1);
                    }
                    return None;
                },
            },
            None => {
                proof {
                    assert(decimal_value(d.take(i - first + 1)) >= acc * 10);
                    lemma_none_when_large(d, i - first + 1);
                }
                return None;
            },
        }
        i = i + 1;
    }
    proof {
        assert(d.take(i - first) =~= d);
        assert(all_digits(d));
    }
    Some(acc)
}

proof fn lemma_none_when_large(d: Seq<char>, j: int)
    requires
        0 <= j <= d.len(),
        d.len() > 0,
        decimal_value(d.take(j)) > usize::MAX,
    ensures
        !(d.len() > 0 && all_digits(d) && decimal_value(d) <= usize::MAX),
{
    lemma_decimal_value_grows(d, j);
}

} // verus!
