//! Blanks around a sentence: the scanner skips them, so they change no word.
use vstd::prelude::*;
use crate::scan::{
    TokenKind, follows, lemma_quote_end_range, lemma_token_length, litnum_token, literal_items,
    litstring_token, name_end, name_token, num_char, primitive_token, quote_end, remaining,
    scan_from, scan_spec, token, token_kind,
};
use crate::text::{
    is_white, lead_count, lemma_char_at_byte_ascii, lemma_lead_count_props,
    split_white,
};
use crate::word::{Outcome, WordV};

verus! {

/// Every character of `s` is ASCII.
pub open spec fn is_ascii(s: Seq<char>) -> bool {
    forall|i: int| 0 <= i < s.len() ==> (#[trigger] s[i] as u32) < 0x80
}

/// Two outcomes of the scanner agree: both give words, the same ones, or neither does.
pub open spec fn same_words(a: Outcome<Seq<WordV>>, b: Outcome<Seq<WordV>>) -> bool {
    &&& (a is Value <==> b is Value)
    &&& (a is Value ==> a == b)
}

proof fn lemma_lead_count_append(x: Seq<char>, y: Seq<char>, p: spec_fn(char) -> bool)
    ensures
        lead_count(x + y, p) == if lead_count(x, p) < x.len() {
            lead_count(x, p)
        } else {
            x.len() + lead_count(y, p)
        },
    decreases x.len(),
{
    if x.len() == 0 {
        assert(x + y =~= y);
    } else {
        assert((x + y)[0] == x[0]);
        assert((x + y).drop_first() =~= x.drop_first() + y);
        lemma_lead_count_append(x.drop_first(), y, p);
    }
}

proof fn lemma_split_white_blank(p: Seq<char>)
    ensures
        split_white(p + seq![' ']) == split_white(p),
    decreases p.len(),
{
    let q = p + seq![' '];
    if p.len() == 0 {
        assert(q =~= seq![' ']);
        assert(q.drop_first() =~= Seq::<char>::empty());
        assert(is_white(' '));
        assert(split_white(q) == split_white(q.drop_first()));
    } else if is_white(p[0]) {
        assert(q[0] == p[0]);
        assert(q.drop_first() =~= p.drop_first() + seq![' ']);
        lemma_split_white_blank(p.drop_first());
    } else {
        assert(q[0] == p[0]);
        let nw = |c: char| !is_white(c);
        lemma_lead_count_append(p, seq![' '], nw);
        assert(lead_count(seq![' '], nw) == 0);
        lemma_lead_count_props(p, nw);
        let n = lead_count(p, nw) as int;
        assert(lead_count(q, nw) == n);
        assert(q.take(n) =~= p.take(n));
        assert(q.skip(n) =~= p.skip(n) + seq![' ']);
        lemma_split_white_blank(p.skip(n));
        assert(split_white(q) == seq![q.take(n)] + split_white(q.skip(n)));
        assert(split_white(p) == seq![p.take(n)] + split_white(p.skip(n)));
    }
}

proof fn lemma_quote_end_blank(u: Seq<char>, i: int, prev: bool)
    requires
        1 <= i <= u.len(),
    ensures
        quote_end(u + seq![' '], i, prev) == quote_end(u, i, prev),
    decreases u.len() - i,
{
    let v = u + seq![' '];
    if i == u.len() {
        assert(v[i] == ' ');
        if !prev {
            assert(quote_end(v, i + 1, false) == Option::<int>::None);
        }
    } else {
        assert(v[i] == u[i]);
        lemma_quote_end_blank(u, i + 1, if u[i] == '\'' {
            !prev
        } else {
            prev
        });
    }
}

proof fn lemma_name_end_blank(u: Seq<char>, i: int, p: Option<WordV>)
    requires
        1 <= i <= u.len(),
    ensures
        name_end(u + seq![' '], i, p) == name_end(u, i, p),
    decreases u.len() - i,
{
    let v = u + seq![' '];
    if i == u.len() {
        assert(v[i] == ' ');
    } else {
        assert(v[i] == u[i]);
        assert(v.take(i + 1) =~= u.take(i + 1));
        let c = u[i];
        if c == '.' || c == ':' {
            match crate::primitives::primitive_word(u.take(i + 1)) {
                Outcome::Value(w) => lemma_name_end_blank(u, i + 1, Some(w)),
                _ => lemma_name_end_blank(u, i + 1, p),
            }
        } else {
            lemma_name_end_blank(u, i + 1, p);
        }
    }
}

proof fn lemma_contains_blank(p: Seq<char>, ch: char)
    requires
        ch != ' ',
    ensures
        (p + seq![' ']).contains(ch) <==> p.contains(ch),
{
    let q = p + seq![' '];
    if q.contains(ch) {
        let j = choose|j: int| 0 <= j < q.len() && q[j] == ch;
        assert(j < p.len());
        assert(p[j] == ch);
    }
    if p.contains(ch) {
        let j = choose|j: int| 0 <= j < p.len() && p[j] == ch;
        assert(q[j] == ch);
    }
}

/// A blank after a word changes neither the word nor where it ends, except that a
/// numeric literal takes the blank in as its last character.
proof fn lemma_token_blank(kind: TokenKind, u: Seq<char>)
    requires
        u.len() >= 1,
        is_ascii(u),
        token_kind(u[0]) == Some(kind),
    ensures
        token(kind, u + seq![' ']) is Value <==> token(kind, u) is Value,
        token(kind, u) matches Outcome::Value((l, w)) ==> (token(kind, u + seq![' '])
            == Outcome::Value((l, w)) || (l == u.len() - 1 && token(kind, u + seq![' '])
            == Outcome::Value(((l + 1) as nat, w)))),
{
    let v = u + seq![' '];
    assert(v[0] == u[0]);
    lemma_token_length(kind, u);
    match kind {
        TokenKind::Number => {
            let nc = num_char();
            lemma_lead_count_append(u, seq![' '], nc);
            assert(seq![' '].drop_first() =~= Seq::<char>::empty());
            assert(nc(' '));
            assert(lead_count(Seq::<char>::empty(), nc) == 0);
            assert(lead_count(seq![' '], nc) == 1);
            lemma_lead_count_props(u, nc);
            let k = lead_count(u, nc) as int;
            assert(k >= 1);
            if k < u.len() {
                assert(v.take(k) =~= u.take(k));
            } else {
                assert(u.take(k) =~= u);
                assert(v.take(k + 1) =~= u + seq![' ']);
                lemma_contains_blank(u, 'j');
                lemma_contains_blank(u, 'r');
                lemma_contains_blank(u, '.');
                lemma_contains_blank(u, 'e');
                lemma_split_white_blank(u);
                assert(literal_items(v.take(k + 1)) == literal_items(u.take(k)));
            }
            assert(litnum_token(v) == token(kind, v));
            assert(litnum_token(u) == token(kind, u));
        },
        TokenKind::String => {
            if u.len() < 2 {
                assert(v[1] == ' ');
                assert(quote_end(v, 2, false) == Option::<int>::None);
                assert(quote_end(v, 1, false) == Option::<int>::None);
            } else {
                lemma_quote_end_blank(u, 1, false);
                lemma_quote_end_range(u, 1, false);
                if let Some(l) = quote_end(u, 1, false) {
                    assert(v.subrange(1, l) =~= u.subrange(1, l));
                }
            }
            assert(litstring_token(v) == token(kind, v));
            assert(litstring_token(u) == token(kind, u));
        },
        TokenKind::Name => {
            lemma_name_end_blank(u, 1, None);
            crate::scan::lemma_name_end_range(u, 1, None);
            let l = name_end(u, 1, None).0;
            assert(v.take(l + 1) =~= u.take(l + 1));
            assert(name_token(v) == token(kind, v));
            assert(name_token(u) == token(kind, u));
        },
        TokenKind::Primitive => {
            let f = follows(u[0]);
            assert(v.drop_first() =~= u.drop_first() + seq![' ']);
            lemma_lead_count_append(u.drop_first(), seq![' '], f);
            assert(!f(' '));
            assert(lead_count(seq![' '], f) == 0);
            lemma_lead_count_props(u.drop_first(), f);
            let l = lead_count(u.drop_first(), f) as int;
            assert(lead_count(v.drop_first(), f) == l);
            lemma_char_at_byte_ascii(u, l + 1);
            lemma_char_at_byte_ascii(v, l + 1);
            assert(v.take(l + 1) =~= u.take(l + 1));
            assert(primitive_token(v) == token(kind, v));
            assert(primitive_token(u) == token(kind, u));
        },
    }
}

proof fn lemma_scan_blank_end(s: Seq<char>, i: int)
    requires
        is_ascii(s),
        0 <= i <= s.len(),
    ensures
        same_words(scan_from(s + seq![' '], i), scan_from(s, i)),
    decreases remaining(s, i),
{
    let t = s + seq![' '];
    if i == s.len() {
        assert(t[i] == ' ');
        assert(is_white(' '));
        assert(scan_from(t, i + 1) == Outcome::<Seq<WordV>>::Value(seq![]));
    } else {
        let c = s[i];
        assert(t[i] == c);
        if c == '(' || c == ')' || is_white(c) {
            lemma_scan_blank_end(s, i + 1);
        } else {
            let kind = token_kind(c)->0;
            lemma_char_at_byte_ascii(s, i);
            lemma_char_at_byte_ascii(t, i);
            let u = s.skip(i);
            assert(t.skip(i) =~= u + seq![' ']);
            assert(u[0] == c);
            lemma_token_blank(kind, u);
            lemma_token_length(kind, u);
            if let Outcome::Value((l, w)) = token(kind, u) {
                if token(kind, u + seq![' ']) == Outcome::Value((l, w)) {
                    lemma_scan_blank_end(s, i + l + 1);
                } else {
                    assert(i + l + 1 == s.len());
                    assert(scan_from(t, i + l + 2) == Outcome::<Seq<WordV>>::Value(seq![]));
                    assert(scan_from(s, i + l + 1) == Outcome::<Seq<WordV>>::Value(seq![]));
                }
            }
        }
    }
}

proof fn lemma_scan_blank_start(s: Seq<char>, i: int)
    requires
        is_ascii(s),
        0 <= i,
    ensures
        scan_from(seq![' '] + s, i + 1) == scan_from(s, i),
    decreases remaining(s, i),
{
    let cs = seq![' '] + s;
    if i < s.len() {
        let c = s[i];
        assert(cs[i + 1] == c);
        if c == '(' || c == ')' || is_white(c) {
            lemma_scan_blank_start(s, i + 1);
        } else {
            let kind = token_kind(c)->0;
            lemma_char_at_byte_ascii(s, i);
            assert(is_ascii(cs));
            lemma_char_at_byte_ascii(cs, i + 1);
            assert(cs.skip(i + 1) =~= s.skip(i));
            lemma_token_length(kind, s.skip(i));
            if let Outcome::Value((l, w)) = token(kind, s.skip(i)) {
                lemma_scan_blank_start(s, i + l + 1);
            }
        }
    }
}

/// Blanks around a sentence change no word: for a sentence of ASCII characters, the
/// sentence with a blank before and after it scans to the same words, or fails as it does.
pub proof fn law_blanks_around_sentence(s: Seq<char>)
    requires
        is_ascii(s),
    ensures
        same_words(scan_spec(seq![' '] + s + seq![' ']), scan_spec(s)),
        scan_spec(seq![]) == Outcome::<Seq<WordV>>::Value(seq![]),
{
    let t = s + seq![' '];
    assert(is_ascii(t));
    let cs = seq![' '] + t;
    assert(seq![' '] + s + seq![' '] =~= cs);
    assert(cs[0] == ' ');
    assert(is_white(' '));
    lemma_scan_blank_start(t, 0);
    lemma_scan_blank_end(s, 0);
}

} // verus!
