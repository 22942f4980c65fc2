//! The scanner: splits a J sentence into words.
//!
//! Positions within the sentence are counted in characters, but each sub-scanner
//! receives the rest of the sentence sliced at a *byte* offset equal to the current
//! character position (and slices its own token the same way), so sentences with
//! non-ASCII characters are scanned as that slicing dictates, and a slice that falls
//! inside a character is a panic that the preconditions rule out.
use vstd::prelude::*;
use crate::array::{NdArray, NdView, vector_view};
use crate::primitives::{primitive_word, str_to_primitive, string_from_chars};
use crate::text::{
    char_at_byte, char_at_byte_exec, dashes, dashes_exec, float_syntax, float_syntax_exec,
    is_digit, is_letter, is_white, is_white_exec, lead_count, lemma_char_at_byte_ascii,
    lemma_lead_count, lemma_lead_count_props, parse_i64, parse_i64_exec, split_white,
    split_white_exec, undouble_quotes, undouble_quotes_exec,
};
use crate::word::{
    ArrayV, FloatItem, FloatV, JArray, JError, Outcome, Word, WordV, char_vector,
    char_vector_word, float_items_view, word_wf, words_view, words_wf,
};

verus! {

/// A token and the index of its last character (`l`): the scanner goes on after it.
pub open spec fn token_result_is(r: Result<(usize, Word), JError>, o: Outcome<(nat, WordV)>) -> bool {
    match r {
        Ok((l, w)) => o == Outcome::Value((l as nat, w@)),
        Err(e) => o == Outcome::<(nat, WordV)>::Failure(e@),
    }
}

/// Characters that may occur in a numeric literal (including the blanks between its items).
pub open spec fn is_num_char(c: char) -> bool {
    is_digit(c) || c == '.' || c == '_' || c == 'e' || c == 'j' || c == 'r' || c == ' ' || c == '\t'
}

pub open spec fn num_char() -> spec_fn(char) -> bool {
    |c: char| is_num_char(c)
}

/// The items of a numeric literal, with `_` read as `-`.
pub open spec fn literal_items(p: Seq<char>) -> Seq<Seq<char>> {
    split_white(p).map_values(|t: Seq<char>| dashes(t))
}

/// `scan_litnumarray`: the numeric literal at the start of `s`.
pub open spec fn litnum_token(s: Seq<char>) -> Outcome<(nat, WordV)> {
    let k = lead_count(s, num_char());
    let p = s.take(k as int);
    if s.len() == 0 {
        Outcome::Failure("Empty number literal"@)
    } else if k == 0 {
        Outcome::Abort
    } else if p.contains('j') {
        Outcome::Failure("complex numbers not supported yet"@)
    } else if p.contains('r') {
        Outcome::Failure("rational numbers not supported yet"@)
    } else if p.contains('.') || p.contains('e') {
        let items = literal_items(p);
        if forall|i: int| 0 <= i < items.len() ==> #[trigger] float_syntax(items[i]) {
            Outcome::Value(
                (
                    (k - 1) as nat,
                    WordV::Noun(
                        ArrayV::Float(
                            vector_view(items.map_values(|t: Seq<char>| FloatV::Literal(t))),
                        ),
                    ),
                ),
            )
        } else {
            Outcome::Failure("parse float error"@)
        }
    } else {
        let items = literal_items(p);
        if forall|i: int| 0 <= i < items.len() ==> #[trigger] parse_i64(items[i]) is Some {
            Outcome::Value(
                (
                    (k - 1) as nat,
                    WordV::Noun(
                        ArrayV::Int(vector_view(items.map_values(|t: Seq<char>| parse_i64(t)->0))),
                    ),
                ),
            )
        } else {
            Outcome::Failure("parse int error"@)
        }
    }
}

/// Where the string literal opened by `s[0]` ends: walks from `i`, `prev` telling whether
/// the previous character was a quote. `None` is an open quote: a newline, or the end of
/// the sentence, before the closing quote.
pub open spec fn quote_end(s: Seq<char>, i: int, prev: bool) -> Option<int>
    decreases s.len() - i,
{
    if i >= s.len() {
        if prev {
            Some(s.len() - 1)
        } else {
            None
        }
    } else if s[i] == '\'' {
        quote_end(s, i + 1, !prev)
    } else if prev {
        Some(i - 1)
    } else if s[i] == '\n' {
        None
    } else {
        quote_end(s, i + 1, prev)
    }
}

/// `scan_litstring`: the string literal at the start of `s` (which starts with a quote).
/// Doubled quotes inside stand for one quote.
pub open spec fn litstring_token(s: Seq<char>) -> Outcome<(nat, WordV)> {
    if s.len() < 2 {
        Outcome::Failure("Empty literal string"@)
    } else {
        match quote_end(s, 1, false) {
            None => Outcome::Failure("open quote"@),
            Some(l) => Outcome::Value(
                (l as nat, char_vector_word(undouble_quotes(s.subrange(1, l)))),
            ),
        }
    }
}

/// Walks over a name from position `i`; `p` is the primitive found so far, if any. A name
/// begins with a letter and goes on over letters, numerals and underscores.
/// Returns the index of the name's last character and the primitive.
pub open spec fn name_end(s: Seq<char>, i: int, p: Option<WordV>) -> (int, Option<WordV>)
    decreases s.len() - i,
{
    if i >= s.len() {
        (s.len() - 1, p)
    } else {
        let c = s[i];
        if is_letter(c) || is_digit(c) || c == '_' {
            if p is Some {
                (i - 1, p)
            } else {
                name_end(s, i + 1, p)
            }
        } else if c == '.' || c == ':' {
            match primitive_word(s.take(i + 1)) {
                Outcome::Value(w) => name_end(s, i + 1, Some(w)),
                _ => if p is Some {
                    (i - 1, p)
                } else {
                    name_end(s, i + 1, p)
                },
            }
        } else {
            (i - 1, p)
        }
    }
}

/// `scan_name`: the name, or the primitive spelled with letters (such as `i.`),
/// at the start of `s` (which starts with a letter).
pub open spec fn name_token(s: Seq<char>) -> Outcome<(nat, WordV)> {
    if s.len() == 0 {
        Outcome::Failure("Empty name"@)
    } else {
        let (l, p) = name_end(s, 1, None);
        match p {
            Some(w) => Outcome::Value((l as nat, w)),
            None => Outcome::Value((l as nat, WordV::Name(s.take(l + 1)))),
        }
    }
}

/// The characters that may follow `p` in the spelling of a primitive.
pub open spec fn follows(p: char) -> spec_fn(char) -> bool {
    |c: char|
        if p == '{' {
            c == '{' || c == '.' || c == ':'
        } else if p == '}' {
            c == '}' || c == '.' || c == ':'
        } else {
            c == '.' || c == ':'
        }
}

/// `scan_primitive`: the primitive at the start of `s`: one character followed by the
/// characters that may follow it.
pub open spec fn primitive_token(s: Seq<char>) -> Outcome<(nat, WordV)> {
    if s.len() == 0 {
        Outcome::Failure("Empty primitive"@)
    } else {
        let l = lead_count(s.drop_first(), follows(s[0]));
        match char_at_byte(s, (l + 1) as int) {
            None => Outcome::Abort,
            Some(j) => match primitive_word(s.take(j)) {
                Outcome::Value(w) => Outcome::Value((l, w)),
                Outcome::Failure(e) => Outcome::Failure(e),
                Outcome::Abort => Outcome::Abort,
            },
        }
    }
}

pub enum TokenKind {
    Number,
    String,
    Name,
    Primitive,
}

/// Which sub-scanner a character starts, if any.
pub open spec fn token_kind(c: char) -> Option<TokenKind> {
    if c == '(' || c == ')' || is_white(c) {
        None
    } else if is_digit(c) || c == '_' {
        Some(TokenKind::Number)
    } else if c == '\'' {
        Some(TokenKind::String)
    } else if is_letter(c) {
        Some(TokenKind::Name)
    } else {
        Some(TokenKind::Primitive)
    }
}

pub open spec fn token(kind: TokenKind, s: Seq<char>) -> Outcome<(nat, WordV)> {
    match kind {
        TokenKind::Number => litnum_token(s),
        TokenKind::String => litstring_token(s),
        TokenKind::Name => name_token(s),
        TokenKind::Primitive => primitive_token(s),
    }
}

/// Number of characters of `cs` from position `i` on.
pub open spec fn remaining(cs: Seq<char>, i: int) -> nat {
    if 0 <= i < cs.len() {
        (cs.len() - i) as nat
    } else {
        0
    }
}

/// The words of the sentence `cs` from character `i` on.
pub open spec fn scan_from(cs: Seq<char>, i: int) -> Outcome<Seq<WordV>>
    decreases remaining(cs, i),
{
    if i < 0 || i >= cs.len() {
        Outcome::Value(seq![])
    } else {
        let c = cs[i];
        if c == '(' {
            match scan_from(cs, i + 1) {
                Outcome::Value(ws) => Outcome::Value(seq![WordV::LP] + ws),
                o => o,
            }
        } else if c == ')' {
            match scan_from(cs, i + 1) {
                Outcome::Value(ws) => Outcome::Value(seq![WordV::RP] + ws),
                o => o,
            }
        } else if is_white(c) {
            scan_from(cs, i + 1)
        } else {
            match char_at_byte(cs, i) {
                None => Outcome::Abort,
                Some(j) => match token(token_kind(c)->0, cs.skip(j)) {
                    Outcome::Value((l, w)) => match scan_from(cs, i + l + 1) {
                        Outcome::Value(ws) => Outcome::Value(seq![w] + ws),
                        o => o,
                    },
                    Outcome::Failure(e) => Outcome::Failure(e),
                    Outcome::Abort => Outcome::Abort,
                },
            }
        }
    }
}

/// `scan`: the words of a sentence.
pub open spec fn scan_spec(sentence: Seq<char>) -> Outcome<Seq<WordV>> {
    scan_from(sentence, 0)
}


pub fn is_num_char_exec(c: char) -> (r: bool)
    ensures
        r == is_num_char(c),
{
    ('0' <= c && c <= '9') || c == '.' || c == '_' || c == 'e' || c == 'j' || c == 'r' || c == ' '
        || c == '\t'
}

/// Whether `v` holds the character `c`.
pub fn contains_char(v: &Vec<char>, c: char) -> (r: bool)
    ensures
        r == v@.contains(c),
{
    let mut i: usize = 0;
    while i < v.len()
        invariant
            i <= v.len(),
            forall|k: int| 0 <= k < i ==> v@[k] != c,
        decreases v.len() - i,
    {
        if v[i] == c {
            assert(v@[i as int] == c);
            return true;
        }
        i = i + 1;
    }
    false
}

/// The characters `s[from..to]`.
pub fn slice_chars(s: &Vec<char>, from: usize, to: usize) -> (r: Vec<char>)
    requires
        from <= to <= s@.len(),
    ensures
        r@ == s@.subrange(from as int, to as int),
{
    let mut r: Vec<char> = Vec::new();
    let mut i: usize = from;
    while i < to
        invariant
            from <= i <= to,
            to <= s@.len(),
            r@ =~= s@.subrange(from as int, i as int),
        decreases to - i,
    {
        r.push(s[i]);
        i = i + 1;
    }
    r
}

/// `scan_litnumarray`: scans the numeric literal at character `start` of `cs`.
#[verifier::loop_isolation(false)]
fn scan_litnumarray(cs: &Vec<char>, start: usize) -> (r: Result<(usize, Word), JError>)
    requires
        start <= cs@.len(),
        cs@.len() <= isize::MAX,
        !(litnum_token(cs@.skip(start as int)) is Abort),
    ensures
        token_result_is(r, litnum_token(cs@.skip(start as int))),
        r matches Ok((_, w)) ==> word_wf(w@),
{
    let ghost s = cs@.skip(start as int);
    if start == cs.len() {
        return Err(JError::new("Empty number literal"));
    }
    let mut k: usize = 0;
    while start + k < cs.len() && is_num_char_exec(cs[start + k])
        invariant
            start + k <= cs@.len(),
            s == cs@.skip(start as int),
            forall|i: int| 0 <= i < k ==> #[trigger] num_char()(s[i]),
        decreases cs.len() - start - k,
    {
        assert(s[k as int] == cs@[start + k]);
        k = k + 1;
    }
    proof {
        if start + k < cs.len() {
            assert(s[k as int] == cs@[start + k]);
        }
        lemma_lead_count(s, num_char(), k as int);
    }
    let p = slice_chars(cs, start, start + k);
    assert(p@ =~= s.take(k as int));
    if contains_char(&p, 'j') {
        return Err(JError::new("complex numbers not supported yet"));
    }
    if contains_char(&p, 'r') {
        return Err(JError::new("rational numbers not supported yet"));
    }
    let toks = split_white_exec(&p);
    let ghost items = literal_items(p@);
    proof {
        crate::text::lemma_split_white_len(p@);
        assert(items.len() == toks@.len());
        assert forall|t: int| 0 <= t < items.len() implies items[t] == dashes(
            #[trigger] toks@[t]@,
        ) by {
            assert(toks@.map_values(|t: Vec<char>| t@)[t] == toks@[t]@);
        }
    }
    if contains_char(&p, '.') || contains_char(&p, 'e') {
        let mut out: Vec<FloatItem> = Vec::new();
        let mut t: usize = 0;
        while t < toks.len()
            invariant
                t <= toks@.len(),
                items.len() == toks@.len(),
                forall|u: int| 0 <= u < items.len() ==> items[u] == dashes(#[trigger] toks@[u]@),
                float_items_view(out@) =~= items.take(t as int).map_values(
                    |u: Seq<char>| FloatV::Literal(u),
                ),
                forall|u: int| 0 <= u < t ==> #[trigger] float_syntax(items[u]),
            decreases toks.len() - t,
        {
            let d = dashes_exec(&toks[t]);
            if !float_syntax_exec(&d) {
                assert(!float_syntax(items[t as int]));
                return Err(JError::new("parse float error"));
            }
            let ghost before = out@;
            out.push(FloatItem::Literal(d));
            proof {
                assert(float_items_view(out@) =~= float_items_view(before).push(FloatV::Literal(d@)));
                assert(items.take(t + 1) =~= items.take(t as int).push(items[t as int]));
            }
            t = t + 1;
        }
        assert(items.take(toks.len() as int) =~= items);
        let ghost fv = float_items_view(out@);
        let w = Word::Noun(JArray::FloatArray { a: NdArray::vector(out) });
        assert(w@ == WordV::Noun(ArrayV::Float(vector_view(fv))));
        Ok((k - 1, w))
    } else {
        let mut out: Vec<i64> = Vec::new();
        let mut t: usize = 0;
        while t < toks.len()
            invariant
                t <= toks@.len(),
                items.len() == toks@.len(),
                forall|u: int| 0 <= u < items.len() ==> items[u] == dashes(#[trigger] toks@[u]@),
                out@ =~= items.take(t as int).map_values(|u: Seq<char>| parse_i64(u)->0),
                forall|u: int| 0 <= u < t ==> #[trigger] parse_i64(items[u]) is Some,
            decreases toks.len() - t,
        {
            let d = dashes_exec(&toks[t]);
            match parse_i64_exec(&d) {
                None => {
                    assert(parse_i64(items[t as int]) is None);
                    return Err(JError::new("parse int error"));
                },
                Some(v) => {
                    proof {
                        assert(items.take(t + 1) =~= items.take(t as int).push(items[t as int]));
                    }
                    out.push(v);
                },
            }
            t = t + 1;
        }
        assert(items.take(toks.len() as int) =~= items);
        let w = Word::Noun(JArray::IntArray { a: NdArray::vector(out) });
        Ok((k - 1, w))
    }
}


/// Where the string literal at character `start` of `cs` ends (see `quote_end`).
fn quote_end_exec(cs: &Vec<char>, start: usize) -> (r: Option<usize>)
    requires
        start + 2 <= cs@.len(),
    ensures
        r is None <==> quote_end(cs@.skip(start as int), 1, false) is None,
        r matches Some(l) ==> quote_end(cs@.skip(start as int), 1, false) == Some(l as int),
{
    let ghost s = cs@.skip(start as int);
    let n = cs.len() - start;
    let mut i: usize = 1;
    let mut prev = false;
    while i < n
        invariant
            1 <= i <= n,
            n == s.len(),
            s == cs@.skip(start as int),
            start + n == cs@.len(),
            start + n == cs.len(),
            quote_end(s, 1, false) == quote_end(s, i as int, prev),
        decreases n - i,
    {
        let c = cs[start + i];
        assert(c == s[i as int]);
        if c == '\'' {
            prev = !prev;
        } else if prev {
            return Some(i - 1);
        } else if c == '\n' {
            return None;
        }
        i = i + 1;
    }
    if prev {
        Some(n - 1)
    } else {
        None
    }
}

/// `scan_litstring`: scans the string literal at character `start` of `cs`.
fn scan_litstring(cs: &Vec<char>, start: usize) -> (r: Result<(usize, Word), JError>)
    requires
        start <= cs@.len(),
        cs@.len() <= isize::MAX,
    ensures
        token_result_is(r, litstring_token(cs@.skip(start as int))),
        r matches Ok((_, w)) ==> word_wf(w@),
{
    let ghost s = cs@.skip(start as int);
    if cs.len() - start < 2 {
        return Err(JError::new("Empty literal string"));
    }
    match quote_end_exec(cs, start) {
        None => Err(JError::new("open quote")),
        Some(l) => {
            proof {
                lemma_quote_end_range(s, 1, false);
            }
            let inner = slice_chars(cs, start + 1, start + l);
            assert(inner@ =~= s.subrange(1, l as int));
            let content = undouble_quotes_exec(&inner);
            proof {
                lemma_undouble_len(inner@);
            }
            Ok((l, char_vector(content)))
        },
    }
}

/// A string literal ends at or after its opening quote and inside the sentence.
pub proof fn lemma_quote_end_range(s: Seq<char>, i: int, prev: bool)
    requires
        1 <= i,
        s.len() >= 2,
        prev ==> i >= 2,
    ensures
        quote_end(s, i, prev) matches Some(l) ==> 1 <= l < s.len(),
    decreases s.len() - i,
{
    if i < s.len() && (s[i] == '\'' || (!prev && s[i] != '\n')) {
        lemma_quote_end_range(s, i + 1, if s[i] == '\'' {
            !prev
        } else {
            prev
        });
    }
}

pub proof fn lemma_undouble_len(s: Seq<char>)
    ensures
        undouble_quotes(s).len() <= s.len(),
    decreases s.len(),
{
    if s.len() >= 2 && s[0] == '\'' && s[1] == '\'' {
        lemma_undouble_len(s.skip(2));
    } else if s.len() > 0 {
        lemma_undouble_len(s.drop_first());
    }
}


pub open spec fn opt_word_view(p: Option<Word>) -> Option<WordV> {
    match p {
        Some(w) => Some(w@),
        None => None,
    }
}

pub fn is_letter_exec(c: char) -> (r: bool)
    ensures
        r == is_letter(c),
{
    ('a' <= c && c <= 'z') || ('A' <= c && c <= 'Z')
}

/// Walks over the name at character `start` of `cs` (see `name_end`).
#[verifier::loop_isolation(false)]
fn name_end_exec(cs: &Vec<char>, start: usize) -> (r: (usize, Option<Word>))
    requires
        start < cs@.len(),
        cs@.len() <= isize::MAX,
    ensures
        name_end(cs@.skip(start as int), 1, None) == (r.0 as int, opt_word_view(r.1)),
        r.1 matches Some(w) ==> word_wf(w@),
{
    let ghost s = cs@.skip(start as int);
    let n = cs.len() - start;
    let mut i: usize = 1;
    let mut p: Option<Word> = None;
    while i < n
        invariant
            1 <= i <= n,
            n == s.len(),
            start + n == cs.len(),
            name_end(s, 1, None) == name_end(s, i as int, opt_word_view(p)),
            p matches Some(w) ==> word_wf(w@),
        decreases n - i,
    {
        let c = cs[start + i];
        assert(c == s[i as int]);
        if is_letter_exec(c) || ('0' <= c && c <= '9') || c == '_' {
            if p.is_some() {
                return (i - 1, p);
            }
        } else if c == '.' || c == ':' {
            let prefix = slice_chars(cs, start, start + i + 1);
            assert(prefix@ =~= s.take(i + 1));
            match str_to_primitive(&prefix) {
                Ok(w) => {
                    p = Some(w);
                },
                Err(_) => {
                    if p.is_some() {
                        return (i - 1, p);
                    }
                },
            }
        } else {
            return (i - 1, p);
        }
        i = i + 1;
    }
    (n - 1, p)
}

/// `scan_name`: scans the name (or the primitive spelled with letters) at character
/// `start` of `cs`.
fn scan_name(cs: &Vec<char>, start: usize) -> (r: Result<(usize, Word), JError>)
    requires
        start <= cs@.len(),
        cs@.len() <= isize::MAX,
    ensures
        token_result_is(r, name_token(cs@.skip(start as int))),
        r matches Ok((_, w)) ==> word_wf(w@),
{
    let ghost s = cs@.skip(start as int);
    if start == cs.len() {
        return Err(JError::new("Empty name"));
    }
    let (l, p) = name_end_exec(cs, start);
    proof {
        lemma_name_end_range(s, 1, None);
    }
    match p {
        Some(w) => Ok((l, w)),
        None => {
            let text = slice_chars(cs, start, start + l + 1);
            assert(text@ =~= s.take(l + 1));
            Ok((l, Word::Name(string_from_chars(&text))))
        },
    }
}

/// A name ends inside the sentence, at or after its first character.
pub proof fn lemma_name_end_range(s: Seq<char>, i: int, p: Option<WordV>)
    requires
        1 <= i,
        s.len() >= 1,
    ensures
        0 <= name_end(s, i, p).0 < s.len(),
    decreases s.len() - i,
{
    if i < s.len() {
        let c = s[i];
        if is_letter(c) || is_digit(c) || c == '_' {
            if p is None {
                lemma_name_end_range(s, i + 1, p);
            }
        } else if c == '.' || c == ':' {
            match primitive_word(s.take(i + 1)) {
                Outcome::Value(w) => lemma_name_end_range(s, i + 1, Some(w)),
                _ => if p is None {
                    lemma_name_end_range(s, i + 1, p);
                },
            }
        }
    }
}

/// Whether `c` may follow `p` in the spelling of a primitive.
pub fn follows_exec(p: char, c: char) -> (r: bool)
    ensures
        r == follows(p)(c),
{
    if p == '{' {
        c == '{' || c == '.' || c == ':'
    } else if p == '}' {
        c == '}' || c == '.' || c == ':'
    } else {
        c == '.' || c == ':'
    }
}

/// `scan_primitive`: scans the primitive at character `start` of `cs`.
fn scan_primitive(cs: &Vec<char>, start: usize) -> (r: Result<(usize, Word), JError>)
    requires
        start <= cs@.len(),
        cs@.len() <= isize::MAX,
        !(primitive_token(cs@.skip(start as int)) is Abort),
    ensures
        token_result_is(r, primitive_token(cs@.skip(start as int))),
        r matches Ok((_, w)) ==> word_wf(w@),
{
    let ghost s = cs@.skip(start as int);
    if start == cs.len() {
        return Err(JError::new("Empty primitive"));
    }
    let first = cs[start];
    assert(first == s[0]);
    let mut m: usize = 0;
    let ghost rest = s.drop_first();
    while start + 1 + m < cs.len() && follows_exec(first, cs[start + 1 + m])
        invariant
            start + 1 + m <= cs@.len(),
            rest == cs@.skip(start + 1),
            first == s[0],
            forall|i: int| 0 <= i < m ==> #[trigger] follows(first)(rest[i]),
        decreases cs.len() - start - 1 - m,
    {
        assert(rest[m as int] == cs@[start + 1 + m]);
        m = m + 1;
    }
    proof {
        assert(rest =~= cs@.skip(start + 1));
        if start + 1 + m < cs.len() {
            assert(rest[m as int] == cs@[start + 1 + m]);
        }
        lemma_lead_count(rest, follows(first), m as int);
    }
    let l = m;
    match char_at_byte_exec(cs, start, l + 1) {
        None => Err(JError::new("Empty primitive")),  // unreachable: the slice is a panic
        Some(j) => {
            proof {
                lemma_char_at_byte_le(s, (l + 1) as int);
            }
            let text = slice_chars(cs, start, start + j);
            assert(text@ =~= s.take(j as int));
            match str_to_primitive(&text) {
                Ok(w) => Ok((l, w)),
                Err(e) => Err(e),
            }
        },
    }
}

/// The character found at a byte offset lies within the sequence.
pub proof fn lemma_char_at_byte_le(s: Seq<char>, b: int)
    ensures
        char_at_byte(s, b) matches Some(j) ==> 0 <= j <= s.len(),
    decreases s.len(),
{
    if b != 0 && s.len() > 0 && b > 0 {
        let w = crate::text::utf8_width(s[0]) as int;
        if b >= w {
            lemma_char_at_byte_le(s.drop_first(), b - w);
        }
    }
}


/// Prefixes the words `ws` to the outcome `o`.
pub open spec fn prepend_words(ws: Seq<WordV>, o: Outcome<Seq<WordV>>) -> Outcome<Seq<WordV>> {
    match o {
        Outcome::Value(v) => Outcome::Value(ws + v),
        o => o,
    }
}

/// The characters of a string.
pub fn chars_of(sentence: &str) -> (r: Vec<char>)
    ensures
        r@ == sentence@,
{
    let n = sentence.unicode_len();
    let mut v: Vec<char> = Vec::new();
    let mut i: usize = 0;
    while i < n
        invariant
            n == sentence@.len(),
            i <= n,
            v@ =~= sentence@.take(i as int),
        decreases n - i,
    {
        v.push(sentence.get_char(i));
        i = i + 1;
    }
    assert(sentence@.take(n as int) =~= sentence@);
    v
}

/// Splits a J sentence into its words.
///
/// Fails with the error of the first word that cannot be scanned. Requires that the
/// sentence slices at no byte offset inside a character, which would be a panic.
pub fn scan(sentence: &str) -> (r: Result<Vec<Word>, JError>)
    requires
        sentence@.len() <= isize::MAX,
        !(scan_spec(sentence@) is Abort),
    ensures
        match r {
            Ok(ws) => scan_spec(sentence@) == Outcome::Value(words_view(ws@)) && words_wf(
                words_view(ws@),
            ),
            Err(e) => scan_spec(sentence@) == Outcome::<Seq<WordV>>::Failure(e@),
        },
{
    let cs = chars_of(sentence);
    let ghost g = cs@;
    let n = cs.len();
    let mut words: Vec<Word> = Vec::new();
    let mut i: usize = 0;
    while i < n
        invariant
            g == cs@,
            n == g.len(),
            n <= isize::MAX,
            g == sentence@,
            scan_spec(g) == prepend_words(words_view(words@), scan_from(g, i as int)),
            !(scan_spec(g) is Abort),
            words_wf(words_view(words@)),
        decreases remaining(g, i as int),
    {
        let c = cs[i];
        let ghost before = words_view(words@);
        if c == '(' {
            words.push(Word::LP);
            proof {
                assert(words_view(words@) =~= before.push(WordV::LP));
                lemma_prepend_step(before, WordV::LP, scan_from(g, i + 1));
            }
            i = i + 1;
        } else if c == ')' {
            words.push(Word::RP);
            proof {
                assert(words_view(words@) =~= before.push(WordV::RP));
                lemma_prepend_step(before, WordV::RP, scan_from(g, i + 1));
            }
            i = i + 1;
        } else if is_white_exec(c) {
            i = i + 1;
        } else {
            let j = match char_at_byte_exec(&cs, 0, i) {
                Some(j) => j,
                None => {
                    assert(g.skip(0) =~= g);
                    return Err(JError::new("Invalid primitive"));  // unreachable: the slice is a panic
                },
            };
            proof {
                assert(g.skip(0) =~= g);
                lemma_char_at_byte_le(g, i as int);
            }
            let res = if ('0' <= c && c <= '9') || c == '_' {
                scan_litnumarray(&cs, j)
            } else if c == '\'' {
                scan_litstring(&cs, j)
            } else if is_letter_exec(c) {
                scan_name(&cs, j)
            } else {
                scan_primitive(&cs, j)
            };
            match res {
                Err(e) => {
                    return Err(e);
                },
                Ok((l, w)) => {
                    proof {
                        lemma_token_length(token_kind(c)->0, g.skip(j as int));
                    }
                    let ghost wv = w@;
                    words.push(w);
                    proof {
                        assert(words_view(words@) =~= before.push(wv));
                        lemma_prepend_step(before, wv, scan_from(g, i + l + 1));
                    }
                    i = i + l + 1;
                },
            }
        }
    }
    Ok(words)
}

pub proof fn lemma_prepend_step(before: Seq<WordV>, w: WordV, o: Outcome<Seq<WordV>>)
    ensures
        prepend_words(before, match o {
            Outcome::Value(ws) => Outcome::Value(seq![w] + ws),
            o => o,
        }) == prepend_words(before.push(w), o),
{
    if let Outcome::Value(ws) = o {
        assert(before + (seq![w] + ws) =~= before.push(w) + ws);
    }
}

/// A scanned token ends inside the text it was scanned from.
pub proof fn lemma_token_length(kind: TokenKind, s: Seq<char>)
    ensures
        token(kind, s) matches Outcome::Value((l, _)) ==> l < s.len(),
{
    match kind {
        TokenKind::Number => {
            lemma_lead_count_props(s, num_char());
        },
        TokenKind::String => {
            if s.len() >= 2 {
                lemma_quote_end_range(s, 1, false);
            }
        },
        TokenKind::Name => {
            if s.len() >= 1 {
                lemma_name_end_range(s, 1, None);
            }
        },
        TokenKind::Primitive => {
            if s.len() >= 1 {
                lemma_lead_count_props(s.drop_first(), follows(s[0]));
            }
        },
    }
}

} // verus!
