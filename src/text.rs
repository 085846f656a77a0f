use vstd::prelude::*;
use vstd::string::*;

verus! {

/// ASCII whitespace: space, tab, line feed, form feed, carriage return.
pub open spec fn is_ws(c: char) -> bool {
    c == ' ' || c == '\t' || c == '\n' || c == '\x0C' || c == '\r'
}

/// Length of the run of non-whitespace characters that starts `s`.
pub open spec fn word_len(s: Seq<char>) -> nat
    decreases s.len(),
{
    if s.len() == 0 || is_ws(s[0]) {
        0
    } else {
        1 + word_len(s.drop_first())
    }
}

/// The whitespace-separated words of `s`, left to right.
pub open spec fn words(s: Seq<char>) -> Seq<Seq<char>>
    decreases s.len(),
{
    if s.len() == 0 {
        Seq::empty()
    } else if is_ws(s[0]) {
        words(s.drop_first())
    } else {
        let w = word_len(s);
        if w == 0 || w > s.len() {
            Seq::empty()
        } else {
            seq![s.take(w as int)] + words(s.skip(w as int))
        }
    }
}

/// `pat` occurs in `s`.
pub open spec fn contains_text(s: Seq<char>, pat: Seq<char>) -> bool {
    exists|i: int| 0 <= i <= s.len() - pat.len() && #[trigger] s.subrange(i, i + pat.len()) == pat
}

/// Index of the first `c` in `s`, or `s.len()` where there is none.
pub open spec fn index_of(s: Seq<char>, c: char) -> nat
    decreases s.len(),
{
    if s.len() == 0 {
        0
    } else if s[0] == c {
        0
    } else {
        1 + index_of(s.drop_first(), c)
    }
}

pub open spec fn is_digit(c: char) -> bool {
    '0' <= c <= '9'
}

pub open spec fn all_digits(s: Seq<char>) -> bool {
    forall|i: int| 0 <= i < s.len() ==> is_digit(#[trigger] s[i])
}

/// The number that a run of decimal digits writes.
pub open spec fn digits_value(s: Seq<char>) -> nat
    decreases s.len(),
{
    if s.len() == 0 {
        0
    } else {
        digits_value(s.drop_last()) * 10 + (s.last() as nat - '0' as nat) as nat
    }
}

pub open spec fn digit_char(d: nat) -> char {
    if d == 0 { '0' } else if d == 1 { '1' } else if d == 2 { '2' } else if d == 3 { '3' }
    else if d == 4 { '4' } else if d == 5 { '5' } else if d == 6 { '6' } else if d == 7 { '7' }
    else if d == 8 { '8' } else { '9' }
}

/// `n` in decimal, without leading zeros.
pub open spec fn decimal_text(n: nat) -> Seq<char>
    decreases n,
{
    if n < 10 {
        seq![digit_char(n)]
    } else {
        decimal_text(n / 10).push(digit_char(n % 10))
    }
}

/// `s` is a number in decimal written without leading zeros.
pub open spec fn is_canonical_number(s: Seq<char>) -> bool {
    s.len() > 0 && all_digits(s) && (s.len() == 1 || s[0] != '0')
}

/// What `usize`'s `FromStr` accepts: an optional `+`, then one or more
/// digits whose value fits in `usize`.
pub open spec fn parsed_usize(s: Seq<char>) -> Option<nat> {
    let body = if s.len() > 0 && s[0] == '+' {
        s.drop_first()
    } else {
        s
    };
    if body.len() > 0 && all_digits(body) && digits_value(body) <= usize::MAX {
        Some(digits_value(body))
    } else {
        None
    }
}

/// The whitespace-separated words of `s`.
pub fn split_words(s: &str) -> (r: Vec<String>)
    ensures
        r@.map_values(|w: String| w@) == words(s@),
{
    let n = s.unicode_len();
    let mut r: Vec<String> = Vec::new();
    let mut i: usize = 0;
    assert(s@.skip(0) =~= s@);
    assert(r@.map_values(|w: String| w@) =~= Seq::<Seq<char>>::empty());
    assert(Seq::<Seq<char>>::empty() + words(s@) =~= words(s@));
    while i < n
        invariant
            n == s@.len(),
            i <= n,
            r@.map_values(|w: String| w@) + words(s@.skip(i as int)) == words(s@),
        decreases n - i,
    {
        let c = s.get_char(i);
        if c == ' ' || c == '\t' || c == '\n' || c == '\x0C' || c == '\r' {
            assert(s@.skip(i as int).drop_first() =~= s@.skip(i + 1));
            i = i + 1;
        } else {
            let mut j: usize = i;
            while j < n && !is_ws_char(s.get_char(j))
                invariant
                    n == s@.len(),
                    i <= j <= n,
                    forall|x: int| i <= x < j ==> !is_ws(s@[x]),
                decreases n - j,
            {
                j = j + 1;
            }
            proof {
                lemma_word_len(s@.skip(i as int), (j - i) as int);
            }
            let w = s.substring_char(i, j);
            let ghost r0 = r@;
            r.push(String::from_str(w));
            proof {
                let rest = s@.skip(i as int);
                assert(rest.take((j - i) as int) =~= w@);
                assert(rest.skip((j - i) as int) =~= s@.skip(j as int));
                assert(r@.map_values(|w: String| w@) =~= r0.map_values(|w: String| w@).push(w@));
                assert(seq![w@] + words(s@.skip(j as int)) == words(rest));
                assert(r0.map_values(|w: String| w@).push(w@) + words(s@.skip(j as int))
                    =~= r0.map_values(|w: String| w@) + (seq![w@] + words(s@.skip(j as int))));
            }
            i = j;
        }
    }
    assert(s@.skip(n as int) =~= Seq::<char>::empty());
    assert(r@.map_values(|w: String| w@) + Seq::<Seq<char>>::empty() =~= r@.map_values(|w: String| w@));
    r
}

fn is_ws_char(c: char) -> (r: bool)
    ensures
        r == is_ws(c),
{
    c == ' ' || c == '\t' || c == '\n' || c == '\x0C' || c == '\r'
}

proof fn lemma_word_len(s: Seq<char>, k: int)
    requires
        0 <= k <= s.len(),
        forall|x: int| 0 <= x < k ==> !is_ws(s[x]),
        k == s.len() || is_ws(s[k]),
    ensures
        word_len(s) == k,
    decreases k,
{
    if k > 0 {
        lemma_word_len(s.drop_first(), k - 1);
    }
}

/// Whether `pat` occurs in `s`.
pub fn contains(s: &str, pat: &str) -> (r: bool)
    ensures
        r == contains_text(s@, pat@),
{
    let n = s.unicode_len();
    let m = pat.unicode_len();
    if m > n {
        return false;
    }
    let p = String::from_str(pat);
    let mut i: usize = 0;
    loop
        invariant
            n == s@.len(),
            m == pat@.len(),
            m <= n,
            i <= n - m,
            p@ == pat@,
            forall|x: int| 0 <= x < i ==> #[trigger] s@.subrange(x, x + m) != pat@,
        decreases n - m - i,
    {
        let w = String::from_str(s.substring_char(i, i + m));
        if w == p {
            assert(s@.subrange(i as int, i + m) == pat@);
            return true;
        }
        if i == n - m {
            return false;
        }
        i = i + 1;
    }
}

proof fn lemma_index_of(s: Seq<char>, c: char, k: int)
    requires
        0 <= k <= s.len(),
        forall|x: int| 0 <= x < k ==> s[x] != c,
        k == s.len() || s[k] == c,
    ensures
        index_of(s, c) == k,
    decreases k,
{
    if k > 0 {
        lemma_index_of(s.drop_first(), c, k - 1);
    }
}

/// Index of the first `c` in `s`, or the length of `s` where there is none.
pub fn find_char(s: &str, c: char) -> (r: usize)
    ensures
        r == index_of(s@, c),
        r <= s@.len(),
{
    let n = s.unicode_len();
    let mut i: usize = 0;
    while i < n && s.get_char(i) != c
        invariant
            n == s@.len(),
            i <= n,
            forall|x: int| 0 <= x < i ==> s@[x] != c,
        decreases n - i,
    {
        i = i + 1;
    }
    proof {
        lemma_index_of(s@, c, i as int);
    }
    i
}

proof fn lemma_digits_prefix(s: Seq<char>, k: int)
    requires
        0 <= k <= s.len(),
        all_digits(s),
    ensures
        digits_value(s.take(k)) <= digits_value(s),
    decreases s.len(),
{
    if k < s.len() {
        let d = s.drop_last();
        assert(d.take(k) =~= s.take(k));
        lemma_digits_prefix(d, k);
    } else {
        assert(s.take(k) =~= s);
    }
}

/// The value of the digits of `s` from index `from` on, where they are all
/// digits and the value fits in `usize`.
fn digits_from(s: &str, from: usize) -> (r: Option<usize>)
    requires
        from <= s@.len(),
    ensures
        match r {
            Some(v) => all_digits(s@.skip(from as int)) && digits_value(s@.skip(from as int)) == v,
            None => !all_digits(s@.skip(from as int)) || digits_value(s@.skip(from as int))
                > usize::MAX,
        },
{
    let n = s.unicode_len();
    let ghost t = s@.skip(from as int);
    let mut v: usize = 0;
    let mut i: usize = from;
    assert(t.take(0) =~= Seq::<char>::empty());
    while i < n
        invariant
            n == s@.len(),
            from <= i <= n,
            t == s@.skip(from as int),
            all_digits(t.take(i - from)),
            digits_value(t.take(i - from)) == v,
        decreases n - i,
    {
        let c = s.get_char(i);
        if c < '0' || c > '9' {
            assert(t[i - from] == c);
            return None;
        }
        let d = (c as u32 - '0' as u32) as usize;
        let ghost pre = t.take(i - from);
        let ghost next = t.take(i - from + 1);
        assert(next.drop_last() =~= pre);
        assert(next.last() == c);
        if v > (usize::MAX - d) / 10 {
            proof {
                assert(digits_value(next) > usize::MAX) by (nonlinear_arith)
                    requires
                        digits_value(next) == v * 10 + d,
                        v > (usize::MAX - d) / 10,
                        d <= 9,
                ;
                if all_digits(t) {
                    lemma_digits_prefix(t, i - from + 1);
                }
            }
            return None;
        }
        proof {
            assert(v * 10 + d <= usize::MAX) by (nonlinear_arith)
                requires
                    v <= (usize::MAX - d) / 10,
                    d <= 9,
            ;
            assert(all_digits(next)) by {
                assert forall|x: int| 0 <= x < next.len() implies is_digit(#[trigger] next[x]) by {
                    if x < pre.len() {
                        assert(next[x] == pre[x]);
                    }
                }
            }
        }
        v = v * 10 + d;
        i = i + 1;
    }
    assert(t.take(n - from) =~= t);
    Some(v)
}

/// Reads `s` as `usize`'s `FromStr` does: an optional `+`, then digits.
pub fn parse_usize(s: &str) -> (r: Option<usize>)
    ensures
        match r {
            Some(v) => parsed_usize(s@) == Some(v as nat),
            None => parsed_usize(s@) is None,
        },
{
    let n = s.unicode_len();
    let from: usize = if n > 0 && s.get_char(0) == '+' {
        1
    } else {
        0
    };
    assert(s@.skip(0) =~= s@);
    assert(s@.skip(1) =~= s@.drop_first());
    if from == n {
        return None;
    }
    digits_from(s, from)
}

/// Reads `s` as a number written in decimal without leading zeros.
pub fn parse_canonical(s: &str) -> (r: Option<usize>)
    ensures
        match r {
            Some(v) => is_canonical_number(s@) && digits_value(s@) == v,
            None => !is_canonical_number(s@) || digits_value(s@) > usize::MAX,
        },
{
    let n = s.unicode_len();
    if n == 0 || (n > 1 && s.get_char(0) == '0') {
        return None;
    }
    assert(s@.skip(0) =~= s@);
    digits_from(s, 0)
}

fn digit_str(d: usize) -> (r: &'static str)
    requires
        d < 10,
    ensures
        r@ == seq![digit_char(d as nat)],
{
    proof {
        reveal_strlit("0");
        reveal_strlit("1");
        reveal_strlit("2");
        reveal_strlit("3");
        reveal_strlit("4");
        reveal_strlit("5");
        reveal_strlit("6");
        reveal_strlit("7");
        reveal_strlit("8");
        reveal_strlit("9");
    }
    let r = if d == 0 { "0" } else if d == 1 { "1" } else if d == 2 { "2" } else if d == 3 { "3" }
    else if d == 4 { "4" } else if d == 5 { "5" } else if d == 6 { "6" } else if d == 7 { "7" }
    else if d == 8 { "8" } else { "9" };
    assert(r@ =~= seq![digit_char(d as nat)]);
    r
}

/// Appends `n` in decimal to `out`.
pub fn push_decimal(out: &mut String, n: usize)
    ensures
        final(out)@ == old(out)@ + decimal_text(n as nat),
    decreases n,
{
    if n >= 10 {
        push_decimal(out, n / 10);
    }
    out.append(digit_str(n % 10));
    proof {
        if n >= 10 {
            assert(decimal_text(n as nat) == decimal_text((n / 10) as nat).push(digit_char((n % 10) as nat)));
        }
    }
    assert(final(out)@ =~= old(out)@ + decimal_text(n as nat));
}

} // verus!
