//! The parser and evaluator: J's right-to-left parsing of a sentence with a queue
//! of words and a stack of fragments
//! (<https://www.jsoftware.com/ioj/iojSent.htm>).
use vstd::prelude::*;
use itertools::Itertools;
use std::collections::VecDeque;
use crate::verbs::{arg_view, exec_spec};
use crate::word::{
    AdverbImpl, JError, Outcome, VerbImpl, VerbV, Word, WordV, verb_wf, word_wf, words_view,
    words_wf,
};

verus! {

/// Words that may stand left of a monad in the first parsing rule.
pub open spec fn is_edge(w: WordV) -> bool {
    w is StartOfLine || w is IsGlobal || w is IsLocal || w is LP
}

/// Words that may stand left of the other parsing rules.
pub open spec fn is_edge_avn(w: WordV) -> bool {
    is_edge(w) || w is Adverb || w is Verb || w is Noun
}

/// The first four words of the stack, padded with `Nothing`.
pub open spec fn fragment(stack: Seq<WordV>) -> Seq<WordV> {
    Seq::new(
        4,
        |i: int|
            if i < stack.len() {
                stack[i]
            } else {
                WordV::Nothing
            },
    )
}

/// The stack below its first four words.
pub open spec fn below_fragment(stack: Seq<WordV>) -> Seq<WordV> {
    if stack.len() >= 4 {
        stack.skip(4)
    } else {
        seq![]
    }
}

/// The verb of a `Verb` word.
pub open spec fn verb_of(w: WordV) -> VerbV {
    match w {
        WordV::Verb(_, v) => *v,
        _ => VerbV::NotImplemented,
    }
}

/// One step of the parser.
pub enum Step {
    /// A rule applied: the new stack.
    Reduced(Seq<WordV>),
    /// No rule applied: a word moved from the queue onto the stack, giving this stack.
    Shifted(Seq<WordV>),
    /// No rule applied and the queue is empty: the final stack.
    Done(Seq<WordV>),
    /// A verb failed: the evaluator panics.
    Abort,
}

/// Applies the verb `v`; its failure is a panic of the parser.
pub open spec fn apply(v: VerbV, x: Option<WordV>, y: WordV, mk: spec_fn(WordV) -> Seq<WordV>) -> Step {
    match exec_spec(v, x, y) {
        Outcome::Value(r) => Step::Reduced(mk(r)),
        _ => Step::Abort,
    }
}

/// The name of the verb that an adverb derives from a verb (its name followed by the
/// adverb's) or from a noun (`m` followed by the adverb's name).
pub open spec fn derived_from_verb(v: WordV, adv: WordV) -> WordV {
    WordV::Verb(
        v->Verb_0 + adv->Adverb_0,
        Box::new(VerbV::DerivedVerb(Box::new(v), Box::new(WordV::Nothing), Box::new(adv))),
    )
}

pub open spec fn derived_from_noun(n: WordV, adv: WordV) -> WordV {
    WordV::Verb(
        "m"@ + adv->Adverb_0,
        Box::new(VerbV::DerivedVerb(Box::new(WordV::Nothing), Box::new(n), Box::new(adv))),
    )
}

/// One step of the parser on the queue of words still to read and the stack.
pub open spec fn step(queue: Seq<WordV>, stack: Seq<WordV>) -> Step {
    let f = fragment(stack);
    let rest = below_fragment(stack);
    let (w, a, b, c) = (f[0], f[1], f[2], f[3]);
    if is_edge(w) && a is Verb && b is Noun {
        // 0 monad
        apply(verb_of(a), None, b, |r: WordV| seq![w, r, c] + rest)
    } else if is_edge_avn(w) && a is Verb && b is Verb && c is Noun {
        // 1 monad
        apply(verb_of(b), None, c, |r: WordV| seq![w, a, r] + rest)
    } else if is_edge_avn(w) && a is Noun && b is Verb && c is Noun {
        // 2 dyad
        apply(verb_of(b), Some(a), c, |r: WordV| seq![w, r] + rest)
    } else if is_edge_avn(w) && a is Verb && b is Adverb {
        // 3 adverb V A _
        Step::Reduced(seq![w, derived_from_verb(a, b), c] + rest)
    } else if is_edge_avn(w) && a is Noun && b is Adverb {
        // 3 adverb N A _
        Step::Reduced(seq![w, derived_from_noun(a, b), c] + rest)
    } else if queue.len() == 0 {
        Step::Done(f + rest)
    } else {
        Step::Shifted(seq![queue.last()] + f + rest)
    }
}

/// Number of words other than `Nothing`.
pub open spec fn real_count(s: Seq<WordV>) -> nat
    decreases s.len(),
{
    if s.len() == 0 {
        0
    } else {
        (if s[0] is Nothing {
            0nat
        } else {
            1nat
        }) + real_count(s.drop_first())
    }
}

pub proof fn lemma_real_count_add(a: Seq<WordV>, b: Seq<WordV>)
    ensures
        real_count(a + b) == real_count(a) + real_count(b),
    decreases a.len(),
{
    if a.len() > 0 {
        assert((a + b).drop_first() =~= a.drop_first() + b);
        lemma_real_count_add(a.drop_first(), b);
    } else {
        assert(a + b =~= b);
    }
}

pub proof fn lemma_real_count_fragment(stack: Seq<WordV>)
    ensures
        real_count(stack) == real_count(fragment(stack)) + real_count(below_fragment(stack)),
{
    let f = fragment(stack);
    if stack.len() >= 4 {
        assert(stack =~= f + stack.skip(4));
        lemma_real_count_add(f, stack.skip(4));
    } else {
        let pad = Seq::new((4 - stack.len()) as nat, |i: int| WordV::Nothing);
        assert(f =~= stack + pad);
        lemma_real_count_add(stack, pad);
        lemma_real_count_nothing(pad);
        assert(below_fragment(stack) =~= Seq::<WordV>::empty());
    }
}

pub proof fn lemma_real_count_nothing(s: Seq<WordV>)
    requires
        forall|i: int| 0 <= i < s.len() ==> s[i] is Nothing,
    ensures
        real_count(s) == 0,
    decreases s.len(),
{
    if s.len() > 0 {
        lemma_real_count_nothing(s.drop_first());
    }
}

pub proof fn lemma_real_count_le_len(s: Seq<WordV>)
    ensures
        real_count(s) <= s.len(),
    decreases s.len(),
{
    if s.len() > 0 {
        lemma_real_count_le_len(s.drop_first());
    }
}

/// 1 for a word other than `Nothing`.
pub open spec fn wc(w: WordV) -> nat {
    if w is Nothing {
        0
    } else {
        1
    }
}

pub proof fn lemma_real_count_small(a: WordV, b: WordV, c: WordV, d: WordV)
    ensures
        real_count(seq![a, b]) == wc(a) + wc(b),
        real_count(seq![a, b, c]) == wc(a) + wc(b) + wc(c),
        real_count(seq![a, b, c, d]) == wc(a) + wc(b) + wc(c) + wc(d),
{
    assert(seq![a, b, c, d].drop_first() =~= seq![b, c, d]);
    assert(seq![a, b, c].drop_first() =~= seq![b, c]);
    assert(seq![b, c, d].drop_first() =~= seq![c, d]);
    assert(seq![a, b].drop_first() =~= seq![b]);
    assert(seq![b, c].drop_first() =~= seq![c]);
    assert(seq![c, d].drop_first() =~= seq![d]);
    assert(seq![b].drop_first() =~= Seq::<WordV>::empty());
    assert(seq![c].drop_first() =~= Seq::<WordV>::empty());
    assert(seq![d].drop_first() =~= Seq::<WordV>::empty());
    assert(real_count(Seq::<WordV>::empty()) == 0);
    assert(real_count(seq![b]) == wc(b));
    assert(real_count(seq![c]) == wc(c));
    assert(real_count(seq![d]) == wc(d));
    assert(real_count(seq![b, c]) == wc(b) + wc(c));
    assert(real_count(seq![c, d]) == wc(c) + wc(d));
    assert(real_count(seq![b, c, d]) == wc(b) + wc(c) + wc(d));
}

/// Every rule replaces at least two words other than `Nothing` by at most one.
pub proof fn lemma_step_reduces(queue: Seq<WordV>, stack: Seq<WordV>)
    ensures
        step(queue, stack) matches Step::Reduced(s) ==> real_count(s) < real_count(stack),
{
    let f = fragment(stack);
    let rest = below_fragment(stack);
    let (w, a, b, c) = (f[0], f[1], f[2], f[3]);
    lemma_real_count_fragment(stack);
    assert(f =~= seq![w, a, b, c]);
    lemma_real_count_small(w, a, b, c);
    if step(queue, stack) is Reduced {
        let s = step(queue, stack)->Reduced_0;
        if is_edge(w) && a is Verb && b is Noun {
            let r = exec_spec(verb_of(a), None, b)->Value_0;
            lemma_real_count_small(w, r, c, c);
            lemma_real_count_add(seq![w, r, c], rest);
        } else if is_edge_avn(w) && a is Verb && b is Verb && c is Noun {
            let r = exec_spec(verb_of(b), None, c)->Value_0;
            lemma_real_count_small(w, a, r, r);
            lemma_real_count_add(seq![w, a, r], rest);
        } else if is_edge_avn(w) && a is Noun && b is Verb && c is Noun {
            let r = exec_spec(verb_of(b), Some(a), c)->Value_0;
            lemma_real_count_small(w, r, r, r);
            lemma_real_count_add(seq![w, r], rest);
        } else if is_edge_avn(w) && a is Verb && b is Adverb {
            let r = derived_from_verb(a, b);
            lemma_real_count_small(w, r, c, c);
            lemma_real_count_add(seq![w, r, c], rest);
        } else if is_edge_avn(w) && a is Noun && b is Adverb {
            let r = derived_from_noun(a, b);
            lemma_real_count_small(w, r, c, c);
            lemma_real_count_add(seq![w, r, c], rest);
        }
    }
}

/// Runs the parser until no rule applies and the queue is empty: the final stack.
pub open spec fn parse_loop(queue: Seq<WordV>, stack: Seq<WordV>) -> Outcome<Seq<WordV>>
    decreases queue.len(), real_count(stack),
{
    match step(queue, stack) {
        Step::Reduced(s) => {
            proof {
                lemma_step_reduces(queue, stack);
            }
            parse_loop(queue, s)
        },
        Step::Shifted(s) => parse_loop(queue.drop_last(), s),
        Step::Done(s) => Outcome::Value(s),
        Step::Abort => Outcome::Abort,
    }
}

/// The final stack without the `StartOfLine` and `Nothing` placeholders.
pub open spec fn without_placeholders(s: Seq<WordV>) -> Seq<WordV> {
    s.filter(|w: WordV| !(w is StartOfLine) && !(w is Nothing))
}

/// `eval`: the value of a sentence, when parsing leaves exactly one word.
pub open spec fn eval_spec(sentence: Seq<WordV>) -> Outcome<WordV> {
    match parse_loop(seq![WordV::StartOfLine] + sentence, seq![]) {
        Outcome::Value(s) => {
            let ws = without_placeholders(s);
            if ws.len() == 1 {
                Outcome::Value(ws[0])
            } else {
                Outcome::Failure("if you're happy and you know it, syntax error"@)
            }
        },
        Outcome::Failure(e) => Outcome::Failure(e),
        Outcome::Abort => Outcome::Abort,
    }
}


/// itertools' `collect_tuple` on the items of `v`: `Some` of them, in order, when there are
/// exactly four, and `None` otherwise.
#[verifier::external_body]
fn collect_four(v: VecDeque<Word>) -> (r: Option<(Word, Word, Word, Word)>)
    ensures
        r is Some <==> v@.len() == 4,
        r is Some ==> r.unwrap().0 == v@[0],
        r is Some ==> r.unwrap().1 == v@[1],
        r is Some ==> r.unwrap().2 == v@[2],
        r is Some ==> r.unwrap().3 == v@[3],
{
    v.into_iter().collect_tuple()
}

/// Takes the first four words off the stack, padded with `Nothing`.
fn get_fragment(stack: &mut VecDeque<Word>) -> (r: (Word, Word, Word, Word))
    requires
        words_wf(words_view(old(stack)@)),
    ensures
        seq![r.0@, r.1@, r.2@, r.3@] == fragment(words_view(old(stack)@)),
        words_view(final(stack)@) == below_fragment(words_view(old(stack)@)),
        words_wf(words_view(final(stack)@)),
        word_wf(r.0@) && word_wf(r.1@) && word_wf(r.2@) && word_wf(r.3@),
{
    let ghost old_v = words_view(stack@);
    let n = stack.len();
    if n < 4 {
        let a = take_front(stack);
        let b = take_front(stack);
        let c = take_front(stack);
        assert(seq![a@, b@, c@, WordV::Nothing] =~= fragment(old_v));
        assert(words_view(stack@) =~= below_fragment(old_v));
        (a, b, c, Word::Nothing)
    } else {
        let mut first = stack.split_off(4);
        std::mem::swap(stack, &mut first);
        let ghost fv = first@;
        assert(words_view(stack@) =~= below_fragment(old_v));
        assert(words_wf(words_view(stack@))) by {
            assert forall|i: int| 0 <= i < words_view(stack@).len() implies #[trigger] word_wf(
                words_view(stack@)[i],
            ) by {
                assert(words_view(stack@)[i] == old_v[i + 4]);
            }
        }
        match collect_four(first) {
            Some(t) => {
                assert(old_v[0] == fv[0]@ && old_v[1] == fv[1]@ && old_v[2] == fv[2]@ && old_v[3]
                    == fv[3]@);
                assert(seq![t.0@, t.1@, t.2@, t.3@] =~= fragment(old_v));
                t
            },
            None => (Word::Nothing, Word::Nothing, Word::Nothing, Word::Nothing),  // unreachable: four words
        }
    }
}

/// Takes the first word off the stack, or `Nothing` when it is empty.
fn take_front(stack: &mut VecDeque<Word>) -> (r: Word)
    requires
        words_wf(words_view(old(stack)@)),
    ensures
        old(stack)@.len() == 0 ==> r@ == WordV::Nothing && final(stack)@ == old(stack)@,
        old(stack)@.len() > 0 ==> r@ == words_view(old(stack)@)[0] && words_view(final(stack)@)
            == words_view(old(stack)@).drop_first(),
        words_wf(words_view(final(stack)@)),
        word_wf(r@),
{
    let ghost old_v = words_view(stack@);
    match stack.pop_front() {
        Some(w) => {
            assert(words_view(stack@) =~= old_v.drop_first());
            assert(word_wf(old_v[0]));
            w
        },
        None => Word::Nothing,
    }
}

fn is_edge_exec(w: &Word) -> (r: bool)
    ensures
        r == is_edge(w@),
{
    match w {
        Word::StartOfLine | Word::IsGlobal | Word::IsLocal | Word::LP => true,
        _ => false,
    }
}

fn is_edge_avn_exec(w: &Word) -> (r: bool)
    ensures
        r == is_edge_avn(w@),
{
    match w {
        Word::StartOfLine | Word::IsGlobal | Word::IsLocal | Word::LP => true,
        Word::Adverb(_, _) | Word::Verb(_, _) | Word::Noun(_) => true,
        _ => false,
    }
}

fn is_verb(w: &Word) -> (r: bool)
    ensures
        r == (w@ is Verb),
{
    match w {
        Word::Verb(_, _) => true,
        _ => false,
    }
}

fn is_noun(w: &Word) -> (r: bool)
    ensures
        r == (w@ is Noun),
{
    match w {
        Word::Noun(_) => true,
        _ => false,
    }
}

fn is_adverb(w: &Word) -> (r: bool)
    ensures
        r == (w@ is Adverb),
{
    match w {
        Word::Adverb(_, _) => true,
        _ => false,
    }
}

/// Puts `front` on top of `stack`.
fn push_front(front: Vec<Word>, stack: &mut VecDeque<Word>)
    ensures
        words_view(final(stack)@) == words_view(front@) + words_view(old(stack)@),
{
    let ghost target = words_view(front@) + words_view(stack@);
    let mut f = front;
    while f.len() > 0
        invariant
            target == words_view(f@) + words_view(stack@),
        decreases f.len(),
    {
        let ghost fv = words_view(f@);
        let ghost sv = words_view(stack@);
        match f.pop() {
            Some(w) => {
                assert(words_view(f@) =~= fv.drop_last());
                stack.push_front(w);
                assert(words_view(stack@) =~= seq![w@] + sv);
                assert(fv =~= fv.drop_last().push(w@));
                assert(target =~= words_view(f@) + words_view(stack@));
            },
            None => {},
        }
    }
    assert(words_view(f@) =~= Seq::<WordV>::empty());
    assert(target =~= words_view(stack@));
}

/// Applies a verb word to its argument(s).
fn exec_verb(v: &Word, x: Option<&Word>, y: &Word) -> (r: Result<Word, JError>)
    requires
        v@ is Verb,
        word_wf(v@),
        crate::verbs::arg_wf(arg_view(x)),
        word_wf(y@),
        !(exec_spec(verb_of(v@), arg_view(x), y@) is Abort),
    ensures
        crate::word::word_result_is(r, exec_spec(verb_of(v@), arg_view(x), y@)),
        r matches Ok(w) ==> word_wf(w@),
{
    match v {
        Word::Verb(_, v) => v.exec(x, y),
        _ => Err(JError::new("not a verb")),  // unreachable
    }
}

/// One step of the parser (`step`): applies the first rule that matches the top of the
/// stack, or moves a word from the queue to the stack, or finds that the parse is over.
/// Returns whether the parse is over.
fn parse_step(queue: &mut VecDeque<Word>, stack: &mut VecDeque<Word>) -> (done: bool)
    requires
        words_wf(words_view(old(queue)@)),
        words_wf(words_view(old(stack)@)),
        !(step(words_view(old(queue)@), words_view(old(stack)@)) is Abort),
    ensures
        words_wf(words_view(final(queue)@)),
        words_wf(words_view(final(stack)@)),
        match step(words_view(old(queue)@), words_view(old(stack)@)) {
            Step::Reduced(s) => !done && words_view(final(stack)@) == s && final(queue)@ == old(
                queue,
            )@,
            Step::Shifted(s) => !done && words_view(final(stack)@) == s && words_view(
                final(queue)@,
            ) == words_view(old(queue)@).drop_last(),
            Step::Done(s) => done && words_view(final(stack)@) == s,
            Step::Abort => false,
        },
{
    let ghost qv = words_view(queue@);
    let ghost stv = words_view(stack@);
    let (w1, w2, w3, w4) = get_fragment(stack);
    let ghost f = fragment(stv);
    assert(f[0] == w1@ && f[1] == w2@ && f[2] == w3@ && f[3] == w4@);
    let ghost rest = below_fragment(stv);
    if is_edge_exec(&w1) && is_verb(&w2) && is_noun(&w3) {
        // 0 monad
        match exec_verb(&w2, None, &w3) {
            Ok(r) => {
                let ghost rv = r@;
                push_front(vec![w1, r, w4], stack);
                assert(words_view(stack@) =~= seq![f[0], rv, f[3]] + rest);
                false
            },
            Err(_) => false,  // unreachable: a panic
        }
    } else if is_edge_avn_exec(&w1) && is_verb(&w2) && is_verb(&w3) && is_noun(&w4) {
        // 1 monad
        match exec_verb(&w3, None, &w4) {
            Ok(r) => {
                let ghost rv = r@;
                push_front(vec![w1, w2, r], stack);
                assert(words_view(stack@) =~= seq![f[0], f[1], rv] + rest);
                false
            },
            Err(_) => false,  // unreachable: a panic
        }
    } else if is_edge_avn_exec(&w1) && is_noun(&w2) && is_verb(&w3) && is_noun(&w4) {
        // 2 dyad
        match exec_verb(&w3, Some(&w2), &w4) {
            Ok(r) => {
                let ghost rv = r@;
                push_front(vec![w1, r], stack);
                assert(words_view(stack@) =~= seq![f[0], rv] + rest);
                false
            },
            Err(_) => false,  // unreachable: a panic
        }
    } else if is_edge_avn_exec(&w1) && is_verb(&w2) && is_adverb(&w3) {
        // 3 adverb V A _
        let d = derive_from_verb(w2, w3);
        let ghost dv = d@;
        push_front(vec![w1, d, w4], stack);
        assert(words_view(stack@) =~= seq![f[0], dv, f[3]] + rest);
        false
    } else if is_edge_avn_exec(&w1) && is_noun(&w2) && is_adverb(&w3) {
        // 3 adverb N A _
        let d = derive_from_noun(w2, w3);
        let ghost dv = d@;
        push_front(vec![w1, d, w4], stack);
        assert(words_view(stack@) =~= seq![f[0], dv, f[3]] + rest);
        false
    } else if queue.len() == 0 {
        push_front(vec![w1, w2, w3, w4], stack);
        assert(words_view(stack@) =~= f + rest);
        true
    } else {
        let q = match queue.pop_back() {
            Some(q) => q,
            None => Word::Nothing,  // unreachable: the queue is not empty
        };
        assert(q@ == qv.last());
        assert(words_view(queue@) =~= qv.drop_last());
        let ghost qq = q@;
        push_front(vec![q, w1, w2, w3, w4], stack);
        assert(words_view(stack@) =~= seq![qq] + f + rest);
        false
    }
}

/// The verb that the adverb `adv` derives from the verb `v`.
fn derive_from_verb(v: Word, adv: Word) -> (r: Word)
    requires
        v@ is Verb,
        adv@ is Adverb,
        word_wf(v@),
    ensures
        r@ == derived_from_verb(v@, adv@),
        word_wf(r@),
{
    match (v, adv) {
        (Word::Verb(sv, v), Word::Adverb(sa, a)) => {
            let mut name = sv.clone();
            name.append(sa.as_str());
            let u = Word::Verb(sv, v);
            let ad = Word::Adverb(sa, a);
            assert(name@ == u@->Verb_0 + ad@->Adverb_0);
            let d = VerbImpl::DerivedVerb { u, m: Word::Nothing, a: ad };
            assert(d@ == VerbV::DerivedVerb(Box::new(u@), Box::new(WordV::Nothing), Box::new(ad@)));
            assert(word_wf(u@));
            assert(verb_wf(d@));
            let r = Word::Verb(name, Box::new(d));
            assert(r@ == WordV::Verb(name@, Box::new(d@)));
            r
        },
        _ => Word::Nothing,  // unreachable
    }
}

/// The verb that the adverb `adv` derives from the noun `n`.
fn derive_from_noun(n: Word, adv: Word) -> (r: Word)
    requires
        n@ is Noun,
        adv@ is Adverb,
        word_wf(n@),
    ensures
        r@ == derived_from_noun(n@, adv@),
        word_wf(r@),
{
    match adv {
        Word::Adverb(sa, a) => {
            let mut name = String::from_str("m");
            name.append(sa.as_str());
            let ad = Word::Adverb(sa, a);
            assert(name@ == "m"@ + ad@->Adverb_0);
            let d = VerbImpl::DerivedVerb { u: Word::Nothing, m: n, a: ad };
            assert(d@ == VerbV::DerivedVerb(Box::new(WordV::Nothing), Box::new(n@), Box::new(ad@)));
            assert(verb_wf(d@));
            let r = Word::Verb(name, Box::new(d));
            assert(r@ == WordV::Verb(name@, Box::new(d@)));
            r
        },
        _ => Word::Nothing,  // unreachable
    }
}

/// Evaluates a sentence: parses it right to left, applying verbs (monads and dyads) and
/// adverbs as the parsing rules reduce the stack. The value is the one word that is
/// left; anything else is a syntax error. A verb that fails makes the evaluator panic,
/// which the precondition rules out.
pub fn eval(sentence: Vec<Word>) -> (r: Result<Word, JError>)
    requires
        words_wf(words_view(sentence@)),
        !(eval_spec(words_view(sentence@)) is Abort),
    ensures
        crate::word::word_result_is(r, eval_spec(words_view(sentence@))),
        r matches Ok(w) ==> word_wf(w@),
{
    let ghost sv = words_view(sentence@);
    let mut words = sentence;
    let mut queue: VecDeque<Word> = VecDeque::new();
    while words.len() > 0
        invariant
            sv == words_view(words@) + words_view(queue@),
            words_wf(sv),
        decreases words.len(),
    {
        let ghost wv = words_view(words@);
        let ghost qv = words_view(queue@);
        match words.pop() {
            Some(w) => {
                assert(words_view(words@) =~= wv.drop_last());
                queue.push_front(w);
                assert(words_view(queue@) =~= seq![w@] + qv);
                assert(wv =~= wv.drop_last().push(w@));
                assert(sv =~= words_view(words@) + words_view(queue@));
            },
            None => {},
        }
    }
    assert(words_view(words@) =~= Seq::<WordV>::empty());
    assert(sv =~= words_view(queue@));
    queue.push_front(Word::StartOfLine);
    let ghost q0 = words_view(queue@);
    assert(q0 =~= seq![WordV::StartOfLine] + sv);
    assert(words_wf(q0)) by {
        assert forall|i: int| 0 <= i < q0.len() implies #[trigger] word_wf(q0[i]) by {
            if i > 0 {
                assert(q0[i] == sv[i - 1]);
            }
        }
    }
    let mut stack: VecDeque<Word> = VecDeque::new();
    assert(words_view(stack@) =~= Seq::<WordV>::empty());
    loop
        invariant_except_break
            parse_loop(q0, seq![]) == parse_loop(words_view(queue@), words_view(stack@)),
            !(parse_loop(words_view(queue@), words_view(stack@)) is Abort),
        invariant
            q0 == seq![WordV::StartOfLine] + sv,
            words_wf(words_view(queue@)),
            words_wf(words_view(stack@)),
        ensures
            q0 == seq![WordV::StartOfLine] + sv,
            parse_loop(q0, seq![]) == Outcome::Value(words_view(stack@)),
            words_wf(words_view(stack@)),
        decreases queue.len(), real_count(words_view(stack@)),
    {
        let ghost qv = words_view(queue@);
        let ghost stv = words_view(stack@);
        proof {
            lemma_step_reduces(qv, stv);
        }
        let done = parse_step(&mut queue, &mut stack);
        if done {
            break ;
        }
    }
    // Drop the placeholders, keeping the order of the other words.
    let ghost fin = words_view(stack@);
    let mut ws: VecDeque<Word> = VecDeque::new();
    while stack.len() > 0
        invariant
            q0 == seq![WordV::StartOfLine] + sv,
            parse_loop(q0, seq![]) == Outcome::Value(fin),
            without_placeholders(fin) == without_placeholders(words_view(stack@)) + words_view(
                ws@,
            ),
            words_wf(words_view(stack@)),
            words_wf(words_view(ws@)),
        decreases stack.len(),
    {
        let ghost before = words_view(stack@);
        let w = match stack.pop_back() {
            Some(w) => w,
            None => Word::Nothing,  // unreachable: the stack is not empty
        };
        assert(before.drop_last() =~= words_view(stack@));
        assert(before.last() == w@);
        let ghost keep = !(w@ is StartOfLine) && !(w@ is Nothing);
        let ghost wsv0 = words_view(ws@);
        proof {
            reveal_with_fuel(Seq::<_>::filter, 1);
        }
        assert(without_placeholders(before) == if keep {
            without_placeholders(words_view(stack@)).push(w@)
        } else {
            without_placeholders(words_view(stack@))
        });
        proof {
            if keep {
                assert(without_placeholders(words_view(stack@)).push(w@) + wsv0
                    =~= without_placeholders(words_view(stack@)) + (seq![w@] + wsv0));
            }
        }
        match w {
            Word::StartOfLine | Word::Nothing => {},
            _ => {
                let ghost wsv = words_view(ws@);
                ws.push_front(w);
                assert(words_view(ws@) =~= seq![w@] + wsv);
            },
        }
    }
    if ws.len() == 1 {
        match ws.pop_front() {
            Some(w) => Ok(w),
            None => Err(JError::new("if you're happy and you know it, syntax error")),  // unreachable
        }
    } else {
        Err(JError::new("if you're happy and you know it, syntax error"))
    }
}

} // verus!
