//! Characters and the lexical pieces of a J sentence: character classes,
//! UTF-8 byte offsets, whitespace splitting, integer and decimal literals,
//! and the doubled quotes of string literals.
use vstd::prelude::*;

verus! {

/// `char::is_whitespace`: the characters with Unicode's White_Space property.
pub open spec fn is_white(c: char) -> bool {
    let u = c as u32;
    ||| 0x09 <= u <= 0x0d
    ||| u == 0x20
    ||| u == 0x85
    ||| u == 0xa0
    ||| u == 0x1680
    ||| 0x2000 <= u <= 0x200a
    ||| u == 0x2028
    ||| u == 0x2029
    ||| u == 0x202f
    ||| u == 0x205f
    ||| u == 0x3000
}

pub fn is_white_exec(c: char) -> (r: bool)
    ensures
        r == is_white(c),
{
    let u = c as u32;
    (0x09 <= u && u <= 0x0d) || u == 0x20 || u == 0x85 || u == 0xa0 || u == 0x1680 || (0x2000 <= u
        && u <= 0x200a) || u == 0x2028 || u == 0x2029 || u == 0x202f || u == 0x205f || u == 0x3000
}

pub open spec fn is_digit(c: char) -> bool {
    '0' <= c <= '9'
}

pub open spec fn is_letter(c: char) -> bool {
    ('a' <= c <= 'z') || ('A' <= c <= 'Z')
}

/// Number of bytes of the UTF-8 encoding of `c`.
pub open spec fn utf8_width(c: char) -> nat {
    let u = c as u32;
    if u < 0x80 {
        1
    } else if u < 0x800 {
        2
    } else if u < 0x10000 {
        3
    } else {
        4
    }
}

pub fn utf8_width_exec(c: char) -> (r: usize)
    ensures
        r == utf8_width(c),
{
    let u = c as u32;
    if u < 0x80 {
        1
    } else if u < 0x800 {
        2
    } else if u < 0x10000 {
        3
    } else {
        4
    }
}

/// The index of the character of `s` that starts at byte `b` of its UTF-8 encoding,
/// or `None` when byte `b` is not the start of a character (nor the end of `s`).
pub open spec fn char_at_byte(s: Seq<char>, b: int) -> Option<int>
    decreases s.len(),
{
    if b == 0 {
        Some(0)
    } else if s.len() == 0 || b < 0 {
        None
    } else {
        let w = utf8_width(s[0]) as int;
        if b < w {
            None
        } else {
            match char_at_byte(s.drop_first(), b - w) {
                Some(j) => Some(j + 1),
                None => None,
            }
        }
    }
}

pub proof fn lemma_char_at_byte_skip(s: Seq<char>, b: int, j: int)
    requires
        0 <= j < s.len(),
        b >= utf8_width(s[j]),
    ensures
        char_at_byte(s.skip(j), b) == match char_at_byte(s.skip(j + 1), b - utf8_width(s[j])) {
            Some(k) => Some(k + 1),
            None => None::<int>,
        },
{
    assert(s.skip(j).drop_first() =~= s.skip(j + 1));
    assert(s.skip(j)[0] == s[j]);
}

/// When the first `k` characters of `s` are ASCII, byte `k` starts character `k`.
pub proof fn lemma_char_at_byte_ascii(s: Seq<char>, k: int)
    requires
        0 <= k <= s.len(),
        forall|i: int| 0 <= i < k ==> (s[i] as u32) < 0x80,
    ensures
        char_at_byte(s, k) == Some(k),
    decreases k,
{
    if k > 0 {
        assert(utf8_width(s[0]) == 1);
        lemma_char_at_byte_ascii(s.drop_first(), k - 1);
    }
}

/// Finds the character of `s.skip(start)` that starts at byte `b`.
pub fn char_at_byte_exec(s: &Vec<char>, start: usize, b: usize) -> (r: Option<usize>)
    requires
        start <= s@.len(),
    ensures
        r is Some <==> char_at_byte(s@.skip(start as int), b as int) is Some,
        r matches Some(j) ==> char_at_byte(s@.skip(start as int), b as int) == Some(j as int),
{
    let mut j: usize = start;
    let mut rest: usize = b;
    assert(s@.skip(start as int).skip(0) =~= s@.skip(start as int));
    while j < s.len() && rest > 0
        invariant
            start <= j <= s.len(),
            rest <= b,
            char_at_byte(s@.skip(start as int), b as int) == match char_at_byte(
                s@.skip(start as int).skip(j - start),
                rest as int,
            ) {
                Some(k) => Some(k + (j - start)),
                None => None::<int>,
            },
        decreases s.len() - j,
    {
        let ghost t = s@.skip(start as int);
        assert(t.skip(j - start) =~= s@.skip(j as int));
        let w = utf8_width_exec(s[j]);
        if rest < w {
            proof {
                assert(s@.skip(j as int)[0] == s@[j as int]);
            }
            return None;
        }
        proof {
            lemma_char_at_byte_skip(t, rest as int, j - start);
            assert(t[j - start] == s@[j as int]);
            assert(t.skip(j + 1 - start) =~= s@.skip(j + 1));
        }
        rest = rest - w;
        j = j + 1;
    }
    if rest == 0 {
        Some(j - start)
    } else {
        proof {
            assert(s@.skip(start as int).skip(j - start).len() == 0);
        }
        None
    }
}

/// Every sequence of whitespace-separated items is no longer than the text it came from.
pub proof fn lemma_split_white_len(s: Seq<char>)
    ensures
        split_white(s).len() <= s.len(),
    decreases s.len(),
{
    if s.len() > 0 {
        if is_white(s[0]) {
            lemma_split_white_len(s.drop_first());
        } else {
            let n = lead_count(s, |c: char| !is_white(c)) as int;
            lemma_lead_count_props(s, |c: char| !is_white(c));
            assert(n >= 1);
            lemma_split_white_len(s.skip(n));
        }
    }
}

/// Number of leading characters of `s` that satisfy `p`.
pub open spec fn lead_count(s: Seq<char>, p: spec_fn(char) -> bool) -> nat
    decreases s.len(),
{
    if s.len() > 0 && p(s[0]) {
        1 + lead_count(s.drop_first(), p)
    } else {
        0
    }
}

/// `lead_count` is the length of the longest prefix whose characters satisfy `p`.
pub proof fn lemma_lead_count(s: Seq<char>, p: spec_fn(char) -> bool, k: int)
    requires
        0 <= k <= s.len(),
        forall|i: int| 0 <= i < k ==> #[trigger] p(s[i]),
        k == s.len() || !p(s[k]),
    ensures
        lead_count(s, p) == k,
    decreases k,
{
    if k > 0 {
        lemma_lead_count(s.drop_first(), p, k - 1);
    }
}

/// The characters before `lead_count` satisfy `p`, and the one at `lead_count` does not.
pub proof fn lemma_lead_count_props(s: Seq<char>, p: spec_fn(char) -> bool)
    ensures
        lead_count(s, p) <= s.len(),
        forall|i: int| 0 <= i < lead_count(s, p) ==> #[trigger] p(s[i]),
        lead_count(s, p) == s.len() || !p(s[lead_count(s, p) as int]),
    decreases s.len(),
{
    if s.len() > 0 && p(s[0]) {
        lemma_lead_count_props(s.drop_first(), p);
        assert forall|i: int| 0 <= i < lead_count(s, p) implies #[trigger] p(s[i]) by {
            if i > 0 {
                assert(s[i] == s.drop_first()[i - 1]);
            }
        }
    }
}

/// `str::split_whitespace`: the maximal runs of non-whitespace characters.
pub open spec fn split_white(s: Seq<char>) -> Seq<Seq<char>>
    decreases s.len(),
{
    if s.len() == 0 {
        seq![]
    } else if is_white(s[0]) {
        split_white(s.drop_first())
    } else {
        let n = lead_count(s, |c: char| !is_white(c)) as int;
        proof {
            lemma_lead_count_props(s, |c: char| !is_white(c));
        }
        seq![s.take(n)] + split_white(s.skip(n))
    }
}

/// Splits `s` at whitespace.
pub fn split_white_exec(s: &Vec<char>) -> (r: Vec<Vec<char>>)
    ensures
        r@.map_values(|t: Vec<char>| t@) == split_white(s@),
{
    let mut out: Vec<Vec<char>> = Vec::new();
    let mut i: usize = 0;
    let ghost nw = |c: char| !is_white(c);
    assert(s@.skip(0) =~= s@);
    while i < s.len()
        invariant
            i <= s.len(),
            nw == (|c: char| !is_white(c)),
            out@.map_values(|t: Vec<char>| t@) + split_white(s@.skip(i as int)) == split_white(s@),
        decreases s.len() - i,
    {
        let ghost rest = s@.skip(i as int);
        if is_white_exec(s[i]) {
            assert(rest.drop_first() =~= s@.skip(i + 1));
            i = i + 1;
        } else {
            let mut j: usize = i;
            let mut tok: Vec<char> = Vec::new();
            while j < s.len() && !is_white_exec(s[j])
                invariant
                    i <= j <= s.len(),
                    tok@ =~= s@.subrange(i as int, j as int),
                    forall|k: int| i <= k < j ==> !is_white(#[trigger] s@[k]),
                decreases s.len() - j,
            {
                tok.push(s[j]);
                j = j + 1;
            }
            proof {
                assert forall|k: int| 0 <= k < j - i implies #[trigger] nw(rest[k]) by {
                    assert(rest[k] == s@[i + k]);
                }
                lemma_lead_count(rest, nw, j - i);
                assert(rest.take(j - i) =~= tok@);
                assert(rest.skip(j - i) =~= s@.skip(j as int));
                let pre = out@.map_values(|t: Vec<char>| t@);
                let post = out@.push(tok).map_values(|t: Vec<char>| t@);
                assert(post =~= pre.push(tok@));
                assert(pre + split_white(rest) =~= post + split_white(s@.skip(j as int)));
            }
            out.push(tok);
            i = j;
        }
    }
    assert(split_white(s@.skip(i as int)) =~= Seq::<Seq<char>>::empty());
    assert(out@.map_values(|t: Vec<char>| t@) + Seq::<Seq<char>>::empty() =~= out@.map_values(
        |t: Vec<char>| t@,
    ));
    out
}

/// Each `_` (J's negative sign) written as `-`.
pub open spec fn dashes(t: Seq<char>) -> Seq<char> {
    t.map_values(
        |c: char|
            if c == '_' {
                '-'
            } else {
                c
            },
    )
}

pub fn dashes_exec(t: &Vec<char>) -> (r: Vec<char>)
    ensures
        r@ == dashes(t@),
{
    let mut r: Vec<char> = Vec::new();
    let mut i: usize = 0;
    while i < t.len()
        invariant
            i <= t.len(),
            r@ =~= dashes(t@.take(i as int)),
        decreases t.len() - i,
    {
        r.push(
            if t[i] == '_' {
                '-'
            } else {
                t[i]
            },
        );
        i = i + 1;
    }
    assert(t@.take(t.len() as int) =~= t@);
    r
}

/// Value of a string of decimal digits.
pub open spec fn digits_value(d: Seq<char>) -> nat
    decreases d.len(),
{
    if d.len() == 0 {
        0
    } else {
        digits_value(d.drop_last()) * 10 + ((d.last() as u32 - '0' as u32) as nat)
    }
}

pub open spec fn all_digits(d: Seq<char>) -> bool {
    forall|i: int| 0 <= i < d.len() ==> #[trigger] is_digit(d[i])
}

pub open spec fn is_sign(c: char) -> bool {
    c == '+' || c == '-'
}

/// `t` without its leading sign, if it has one.
pub open spec fn unsigned_part(t: Seq<char>) -> Seq<char> {
    if t.len() > 0 && is_sign(t[0]) {
        t.drop_first()
    } else {
        t
    }
}

pub open spec fn is_negative(t: Seq<char>) -> bool {
    t.len() > 0 && t[0] == '-'
}

/// `i64::from_str`: an optional `+` or `-` followed by one or more decimal digits,
/// whose value lies in the range of `i64`.
pub open spec fn parse_i64(t: Seq<char>) -> Option<i64> {
    let d = unsigned_part(t);
    let v: int = if is_negative(t) {
        -(digits_value(d) as int)
    } else {
        digits_value(d) as int
    };
    if d.len() > 0 && all_digits(d) && i64::MIN <= v <= i64::MAX {
        Some(v as i64)
    } else {
        None
    }
}

pub proof fn lemma_digits_value_grows(d: Seq<char>, k: int)
    requires
        0 <= k <= d.len(),
        all_digits(d),
    ensures
        digits_value(d.take(k)) <= digits_value(d),
    decreases d.len() - k,
{
    if k < d.len() {
        lemma_digits_value_grows(d, k + 1);
        assert(d.take(k + 1).drop_last() =~= d.take(k));
        assert(is_digit(d[k]));
    } else {
        assert(d.take(k) =~= d);
    }
}

/// Parses a decimal integer as `i64::from_str` does.
pub fn parse_i64_exec(t: &Vec<char>) -> (r: Option<i64>)
    ensures
        r == parse_i64(t@),
{
    let n = t.len();
    let mut start: usize = 0;
    let mut neg = false;
    if n > 0 && (t[0] == '+' || t[0] == '-') {
        start = 1;
        neg = t[0] == '-';
    }
    let ghost d = unsigned_part(t@);
    assert(d =~= t@.skip(start as int));
    assert(neg == is_negative(t@));
    if start == n {
        return None;
    }
    // magnitude, which stays at most 2^63 while the value can still fit
    let mut mag: u64 = 0;
    let mut i: usize = start;
    let limit: u64 = 0x8000_0000_0000_0000;
    while i < n
        invariant
            start <= i <= n,
            n == t@.len(),
            d =~= t@.skip(start as int),
            d == unsigned_part(t@),
            neg == is_negative(t@),
            mag as nat == digits_value(d.take(i - start)),
            mag <= limit,
            limit == 0x8000_0000_0000_0000u64,
            forall|k: int| 0 <= k < i - start ==> #[trigger] is_digit(d[k]),
        decreases n - i,
    {
        let c = t[i];
        assert(c == d[i - start]);
        if !('0' <= c && c <= '9') {
            assert(!is_digit(d[i - start]));
            assert(!all_digits(d));
            return None;
        }
        let dig = (c as u32 - '0' as u32) as u64;
        assert(d.take(i + 1 - start).drop_last() =~= d.take(i - start));
        if mag > (limit - dig) / 10 {
            // the magnitude already exceeds 2^63, and more digits only make it larger
            proof {
                assert(mag * 10 + dig > limit) by (nonlinear_arith)
                    requires
                        mag > (limit - dig) / 10,
                        dig <= 9,
                ;
                if all_digits(d) {
                    lemma_digits_value_grows(d, i + 1 - start);
                }
            }
            return None;
        }
        assert(mag * 10 + dig <= limit) by (nonlinear_arith)
            requires
                mag <= (limit - dig) / 10,
                dig <= 9,
        ;
        mag = mag * 10 + dig;
        i = i + 1;
    }
    assert(d.take(n - start) =~= d);
    assert(all_digits(d));
    if neg {
        if mag == limit {
            Some(i64::MIN)
        } else {
            Some(-(mag as i64))
        }
    } else {
        if mag == limit {
            None
        } else {
            Some(mag as i64)
        }
    }
}

/// The decimal grammar of `f64::from_str` (after the optional sign):
/// `( Digit+ | Digit+ '.' Digit* | Digit* '.' Digit+ ) Exp?` with
/// `Exp ::= ('e' | 'E') Sign? Digit+`.
pub open spec fn exponent_ok(u: Seq<char>) -> bool {
    u.len() == 0 || ((u[0] == 'e' || u[0] == 'E') && {
        let v = unsigned_part(u.drop_first());
        v.len() > 0 && all_digits(v)
    })
}

pub open spec fn decimal_ok(u: Seq<char>) -> bool {
    let a = lead_count(u, |c: char| is_digit(c)) as int;
    let r = u.skip(a);
    if r.len() > 0 && r[0] == '.' {
        let r2 = r.drop_first();
        let b = lead_count(r2, |c: char| is_digit(c)) as int;
        a + b > 0 && exponent_ok(r2.skip(b))
    } else {
        a > 0 && exponent_ok(r)
    }
}

pub open spec fn lower(c: char) -> char {
    if 'A' <= c <= 'Z' {
        ((c as u8) + 32u8) as char
    } else {
        c
    }
}

/// `u` spells `word` (lower case ASCII) with letters of either case.
pub open spec fn spells(u: Seq<char>, word: Seq<char>) -> bool {
    u.len() == word.len() && forall|i: int| 0 <= i < u.len() ==> lower(#[trigger] u[i]) == word[i]
}

/// `f64::from_str` accepts `t`: an optional sign, then `inf`, `infinity`, `nan`
/// (in any case) or a decimal number.
pub open spec fn float_syntax(t: Seq<char>) -> bool {
    let u = unsigned_part(t);
    ||| spells(u, seq!['i', 'n', 'f'])
    ||| spells(u, seq!['i', 'n', 'f', 'i', 'n', 'i', 't', 'y'])
    ||| spells(u, seq!['n', 'a', 'n'])
    ||| decimal_ok(u)
}

fn lower_exec(c: char) -> (r: char)
    ensures
        r == lower(c),
{
    if 'A' <= c && c <= 'Z' {
        ((c as u8) + 32u8) as char
    } else {
        c
    }
}

fn spells_exec(t: &Vec<char>, from: usize, word: &Vec<char>) -> (r: bool)
    requires
        from <= t@.len(),
    ensures
        r == spells(t@.skip(from as int), word@),
{
    let n = t.len() - from;
    if n != word.len() {
        return false;
    }
    let mut i: usize = 0;
    while i < n
        invariant
            from <= t@.len(),
            from + n == t.len(),
            n == t@.len() - from,
            n == word@.len(),
            i <= n,
            forall|k: int| 0 <= k < i ==> lower(#[trigger] t@.skip(from as int)[k]) == word@[k],
        decreases n - i,
    {
        if lower_exec(t[from + i]) != word[i] {
            assert(t@.skip(from as int)[i as int] == t@[from + i]);
            return false;
        }
        i = i + 1;
    }
    true
}

/// Number of decimal digits in `t` from position `from` on.
fn count_digits(t: &Vec<char>, from: usize) -> (r: usize)
    requires
        from <= t@.len(),
    ensures
        r == lead_count(t@.skip(from as int), |c: char| is_digit(c)),
        from + r <= t@.len(),
{
    let mut j: usize = from;
    while j < t.len() && '0' <= t[j] && t[j] <= '9'
        invariant
            from <= j <= t@.len(),
            forall|k: int| from <= k < j ==> is_digit(#[trigger] t@[k]),
        decreases t.len() - j,
    {
        j = j + 1;
    }
    proof {
        let s = t@.skip(from as int);
        let p = |c: char| is_digit(c);
        assert forall|k: int| 0 <= k < j - from implies #[trigger] p(s[k]) by {
            assert(s[k] == t@[from + k]);
        }
        lemma_lead_count(s, p, j - from);
    }
    j - from
}

fn exponent_ok_exec(t: &Vec<char>, from: usize) -> (r: bool)
    requires
        from <= t@.len(),
    ensures
        r == exponent_ok(t@.skip(from as int)),
{
    let ghost u = t@.skip(from as int);
    if from == t.len() {
        return true;
    }
    assert(u[0] == t@[from as int]);
    if !(t[from] == 'e' || t[from] == 'E') {
        return false;
    }
    let mut k = from + 1;
    if k < t.len() && (t[k] == '+' || t[k] == '-') {
        k = k + 1;
    }
    assert(unsigned_part(u.drop_first()) =~= t@.skip(k as int));
    let m = count_digits(t, k);
    proof {
        let v = t@.skip(k as int);
        let p = |c: char| is_digit(c);
        lemma_lead_count_props(v, p);
        if m == v.len() {
            assert forall|i: int| 0 <= i < v.len() implies #[trigger] is_digit(v[i]) by {
                assert(p(v[i]));
            }
        } else {
            assert(!p(v[m as int]));
        }
    }
    m > 0 && k + m == t.len()
}

/// Whether `f64::from_str` accepts `t`.
pub fn float_syntax_exec(t: &Vec<char>) -> (r: bool)
    ensures
        r == float_syntax(t@),
{
    let n = t.len();
    let mut s: usize = 0;
    if n > 0 && (t[0] == '+' || t[0] == '-') {
        s = 1;
    }
    let ghost u = unsigned_part(t@);
    assert(u =~= t@.skip(s as int));
    let inf: Vec<char> = vec!['i', 'n', 'f'];
    let infinity: Vec<char> = vec!['i', 'n', 'f', 'i', 'n', 'i', 't', 'y'];
    let nan: Vec<char> = vec!['n', 'a', 'n'];
    assert(inf@ =~= seq!['i', 'n', 'f']);
    assert(infinity@ =~= seq!['i', 'n', 'f', 'i', 'n', 'i', 't', 'y']);
    assert(nan@ =~= seq!['n', 'a', 'n']);
    if spells_exec(t, s, &inf) || spells_exec(t, s, &infinity) || spells_exec(t, s, &nan) {
        return true;
    }
    let a = count_digits(t, s);
    assert(u.skip(a as int) =~= t@.skip(s + a));
    if s + a < n && t[s + a] == '.' {
        let p = s + a + 1;
        assert(u.skip(a as int).drop_first() =~= t@.skip(p as int));
        let b = count_digits(t, p);
        assert(t@.skip(p as int).skip(b as int) =~= t@.skip(p + b));
        let e = exponent_ok_exec(t, p + b);
        a + b > 0 && e
    } else {
        let e = exponent_ok_exec(t, s + a);
        a > 0 && e
    }
}

/// `str::replace("''", "'")`: each doubled quote, taken from left to right, becomes one.
pub open spec fn undouble_quotes(s: Seq<char>) -> Seq<char>
    decreases s.len(),
{
    if s.len() == 0 {
        seq![]
    } else if s.len() >= 2 && s[0] == '\'' && s[1] == '\'' {
        seq!['\''] + undouble_quotes(s.skip(2))
    } else {
        seq![s[0]] + undouble_quotes(s.drop_first())
    }
}

pub fn undouble_quotes_exec(s: &Vec<char>) -> (r: Vec<char>)
    ensures
        r@ == undouble_quotes(s@),
{
    let mut out: Vec<char> = Vec::new();
    let mut i: usize = 0;
    assert(s@.skip(0) =~= s@);
    while i < s.len()
        invariant
            i <= s.len(),
            out@ + undouble_quotes(s@.skip(i as int)) == undouble_quotes(s@),
        decreases s.len() - i,
    {
        let ghost rest = s@.skip(i as int);
        if i + 1 < s.len() && s[i] == '\'' && s[i + 1] == '\'' {
            assert(rest.skip(2) =~= s@.skip(i + 2));
            assert(out@.push('\'') + undouble_quotes(s@.skip(i + 2)) =~= out@ + undouble_quotes(
                rest,
            ));
            out.push('\'');
            i = i + 2;
        } else {
            assert(rest.drop_first() =~= s@.skip(i + 1));
            assert(out@.push(s@[i as int]) + undouble_quotes(s@.skip(i + 1)) =~= out@
                + undouble_quotes(rest));
            out.push(s[i]);
            i = i + 1;
        }
    }
    assert(undouble_quotes(s@.skip(i as int)) =~= Seq::<char>::empty());
    assert(out@ + Seq::<char>::empty() =~= out@);
    out
}

} // verus!
