//! J's primitive words: the spellings of the primitive nouns, verbs, adverbs
//! and conjunctions, and the word that each spelling stands for.
use vstd::prelude::*;
use crate::array::vector_view;
use crate::word::{
    AdverbImpl, ArrayV, JError, Outcome, VerbImpl, Word, WordV, char_vector, char_vector_word,
    word_result_is, word_wf,
};

verus! {

/// The primitive verbs and their implementations
/// (<https://code.jsoftware.com/wiki/NuVoc>).
pub open spec fn verb_table() -> Seq<(&'static str, VerbImpl)> {
    seq![
        ("=", VerbImpl::NotImplemented),
        ("<", VerbImpl::NotImplemented),
        ("<.", VerbImpl::NotImplemented),
        ("<:", VerbImpl::NotImplemented),
        (">", VerbImpl::NotImplemented),
        (">.", VerbImpl::NotImplemented),
        (">:", VerbImpl::NotImplemented),
        ("_:", VerbImpl::NotImplemented),
        ("+", VerbImpl::Plus),
        ("+.", VerbImpl::NotImplemented),
        ("+:", VerbImpl::NotImplemented),
        ("*", VerbImpl::Times),
        ("*.", VerbImpl::NotImplemented),
        ("*:", VerbImpl::NotImplemented),
        ("-", VerbImpl::Minus),
        ("-.", VerbImpl::NotImplemented),
        ("-:", VerbImpl::NotImplemented),
        ("%", VerbImpl::NotImplemented),
        ("%.", VerbImpl::NotImplemented),
        ("%:", VerbImpl::NotImplemented),
        ("^", VerbImpl::NotImplemented),
        ("^.", VerbImpl::NotImplemented),
        ("^!.", VerbImpl::NotImplemented),
        ("$", VerbImpl::Dollar),
        ("$.", VerbImpl::NotImplemented),
        ("$:", VerbImpl::NotImplemented),
        ("~.", VerbImpl::NotImplemented),
        ("~:", VerbImpl::NotImplemented),
        ("|", VerbImpl::NotImplemented),
        ("|.", VerbImpl::NotImplemented),
        ("|:", VerbImpl::NotImplemented),
        (".:", VerbImpl::NotImplemented),
        ("..", VerbImpl::NotImplemented),
        (",.", VerbImpl::NotImplemented),
        (",", VerbImpl::NotImplemented),
        (",:", VerbImpl::NotImplemented),
        (";", VerbImpl::NotImplemented),
        (";:", VerbImpl::NotImplemented),
        ("#", VerbImpl::Number),
        ("#.", VerbImpl::NotImplemented),
        ("#:", VerbImpl::NotImplemented),
        ("!", VerbImpl::NotImplemented),
        ("/:", VerbImpl::NotImplemented),
        ("\\:", VerbImpl::NotImplemented),
        ("[", VerbImpl::NotImplemented),
        ("[:", VerbImpl::NotImplemented),
        ("]", VerbImpl::NotImplemented),
        ("{", VerbImpl::NotImplemented),
        ("{.", VerbImpl::NotImplemented),
        ("{:", VerbImpl::NotImplemented),
        ("{::", VerbImpl::NotImplemented),
        ("}.", VerbImpl::NotImplemented),
        ("}:", VerbImpl::NotImplemented),
        ("\".", VerbImpl::NotImplemented),
        ("\":", VerbImpl::NotImplemented),
        ("?", VerbImpl::NotImplemented),
        ("?.", VerbImpl::NotImplemented),
        ("A.", VerbImpl::NotImplemented),
        ("C.", VerbImpl::NotImplemented),
        ("C.!.2", VerbImpl::NotImplemented),
        ("e.", VerbImpl::NotImplemented),
        ("E.", VerbImpl::NotImplemented),
        ("i.", VerbImpl::NotImplemented),
        ("i:", VerbImpl::NotImplemented),
        ("I.", VerbImpl::NotImplemented),
        ("j.", VerbImpl::NotImplemented),
        ("L.", VerbImpl::NotImplemented),
        ("o.", VerbImpl::NotImplemented),
        ("p.", VerbImpl::NotImplemented),
        ("p..", VerbImpl::NotImplemented),
        ("p:", VerbImpl::NotImplemented),
        ("q:", VerbImpl::NotImplemented),
        ("r.", VerbImpl::NotImplemented),
        ("s:", VerbImpl::NotImplemented),
        ("T.", VerbImpl::NotImplemented),
        ("u:", VerbImpl::NotImplemented),
        ("x:", VerbImpl::NotImplemented),
        ("Z:", VerbImpl::NotImplemented),
        ("_9:", VerbImpl::NotImplemented),
        ("_8:", VerbImpl::NotImplemented),
        ("_7:", VerbImpl::NotImplemented),
        ("_6:", VerbImpl::NotImplemented),
        ("_5:", VerbImpl::NotImplemented),
        ("_4:", VerbImpl::NotImplemented),
        ("_3:", VerbImpl::NotImplemented),
        ("_2:", VerbImpl::NotImplemented),
        ("_1:", VerbImpl::NotImplemented),
        ("0:", VerbImpl::NotImplemented),
        ("1:", VerbImpl::NotImplemented),
        ("2:", VerbImpl::NotImplemented),
        ("3:", VerbImpl::NotImplemented),
        ("4:", VerbImpl::NotImplemented),
        ("5:", VerbImpl::NotImplemented),
        ("6:", VerbImpl::NotImplemented),
        ("7:", VerbImpl::NotImplemented),
        ("8:", VerbImpl::NotImplemented),
        ("9", VerbImpl::NotImplemented),
        ("u.", VerbImpl::NotImplemented),
        ("v.", VerbImpl::NotImplemented),
        ("NB.", VerbImpl::NotImplemented),
        ("{{", VerbImpl::NotImplemented),
        ("}}", VerbImpl::NotImplemented),
        ("assert.", VerbImpl::NotImplemented),
        ("break.", VerbImpl::NotImplemented),
        ("continue.", VerbImpl::NotImplemented),
        ("else.", VerbImpl::NotImplemented),
        ("elseif.", VerbImpl::NotImplemented),
        ("for.", VerbImpl::NotImplemented),
        ("for_ijk.", VerbImpl::NotImplemented),
        ("goto_lbl.", VerbImpl::NotImplemented),
        ("label_lbl.", VerbImpl::NotImplemented),
        ("if.", VerbImpl::NotImplemented),
        ("return.", VerbImpl::NotImplemented),
        ("select.", VerbImpl::NotImplemented),
        ("case.", VerbImpl::NotImplemented),
        ("fcase.", VerbImpl::NotImplemented),
        ("throw.", VerbImpl::NotImplemented),
        ("try.", VerbImpl::NotImplemented),
        ("catch.", VerbImpl::NotImplemented),
        ("catchd.", VerbImpl::NotImplemented),
        ("catcht.", VerbImpl::NotImplemented),
        ("while.", VerbImpl::NotImplemented),
        ("whilst.", VerbImpl::NotImplemented),    ]
}

/// The primitive adverbs and their implementations.
pub open spec fn adverb_table() -> Seq<(&'static str, AdverbImpl)> {
    seq![
        ("~", AdverbImpl::NotImplemented),
        ("/", AdverbImpl::Slash),
        ("/.", AdverbImpl::NotImplemented),
        ("\\", AdverbImpl::NotImplemented),
        ("\\.", AdverbImpl::NotImplemented),
        ("]:", AdverbImpl::NotImplemented),
        ("}", AdverbImpl::CurlyRt),
        ("b.", AdverbImpl::NotImplemented),
        ("f.", AdverbImpl::NotImplemented),
        ("M.", AdverbImpl::NotImplemented),    ]
}

/// The primitive nouns.
pub open spec fn noun_table() -> Seq<(&'static str, ())> {
    seq![
        ("_", ()),
        ("_.", ()),
        ("a.", ()),
        ("a:", ()),    ]
}

/// The primitive conjunctions.
pub open spec fn conjunction_table() -> Seq<(&'static str, ())> {
    seq![
        ("^:", ()),
        (".", ()),
        (":", ()),
        (":.", ()),
        ("::", ()),
        (";.", ()),
        ("!.", ()),
        ("!:", ()),
        ("[.", ()),
        ("].", ()),
        ("\"", ()),
        ("`", ()),
        ("`:", ()),
        ("@", ()),
        ("@.", ()),
        ("@:", ()),
        ("&", ()),
        ("&.", ()),
        ("&:", ()),
        ("&.:", ()),
        ("d.", ()),
        ("D.", ()),
        ("D:", ()),
        ("F.", ()),
        ("F..", ()),
        ("F.:", ()),
        ("F:", ()),
        ("F:.", ()),
        ("F::", ()),
        ("H.", ()),
        ("L:", ()),
        ("S:", ()),
        ("t.", ()),    ]
}

fn primitive_verbs() -> (r: Vec<(&'static str, VerbImpl)>)
    ensures
        r@ == verb_table(),
{
    vec![
        ("=", VerbImpl::NotImplemented),
        ("<", VerbImpl::NotImplemented),
        ("<.", VerbImpl::NotImplemented),
        ("<:", VerbImpl::NotImplemented),
        (">", VerbImpl::NotImplemented),
        (">.", VerbImpl::NotImplemented),
        (">:", VerbImpl::NotImplemented),
        ("_:", VerbImpl::NotImplemented),
        ("+", VerbImpl::Plus),
        ("+.", VerbImpl::NotImplemented),
        ("+:", VerbImpl::NotImplemented),
        ("*", VerbImpl::Times),
        ("*.", VerbImpl::NotImplemented),
        ("*:", VerbImpl::NotImplemented),
        ("-", VerbImpl::Minus),
        ("-.", VerbImpl::NotImplemented),
        ("-:", VerbImpl::NotImplemented),
        ("%", VerbImpl::NotImplemented),
        ("%.", VerbImpl::NotImplemented),
        ("%:", VerbImpl::NotImplemented),
        ("^", VerbImpl::NotImplemented),
        ("^.", VerbImpl::NotImplemented),
        ("^!.", VerbImpl::NotImplemented),
        ("$", VerbImpl::Dollar),
        ("$.", VerbImpl::NotImplemented),
        ("$:", VerbImpl::NotImplemented),
        ("~.", VerbImpl::NotImplemented),
        ("~:", VerbImpl::NotImplemented),
        ("|", VerbImpl::NotImplemented),
        ("|.", VerbImpl::NotImplemented),
        ("|:", VerbImpl::NotImplemented),
        (".:", VerbImpl::NotImplemented),
        ("..", VerbImpl::NotImplemented),
        (",.", VerbImpl::NotImplemented),
        (",", VerbImpl::NotImplemented),
        (",:", VerbImpl::NotImplemented),
        (";", VerbImpl::NotImplemented),
        (";:", VerbImpl::NotImplemented),
        ("#", VerbImpl::Number),
        ("#.", VerbImpl::NotImplemented),
        ("#:", VerbImpl::NotImplemented),
        ("!", VerbImpl::NotImplemented),
        ("/:", VerbImpl::NotImplemented),
        ("\\:", VerbImpl::NotImplemented),
        ("[", VerbImpl::NotImplemented),
        ("[:", VerbImpl::NotImplemented),
        ("]", VerbImpl::NotImplemented),
        ("{", VerbImpl::NotImplemented),
        ("{.", VerbImpl::NotImplemented),
        ("{:", VerbImpl::NotImplemented),
        ("{::", VerbImpl::NotImplemented),
        ("}.", VerbImpl::NotImplemented),
        ("}:", VerbImpl::NotImplemented),
        ("\".", VerbImpl::NotImplemented),
        ("\":", VerbImpl::NotImplemented),
        ("?", VerbImpl::NotImplemented),
        ("?.", VerbImpl::NotImplemented),
        ("A.", VerbImpl::NotImplemented),
        ("C.", VerbImpl::NotImplemented),
        ("C.!.2", VerbImpl::NotImplemented),
        ("e.", VerbImpl::NotImplemented),
        ("E.", VerbImpl::NotImplemented),
        ("i.", VerbImpl::NotImplemented),
        ("i:", VerbImpl::NotImplemented),
        ("I.", VerbImpl::NotImplemented),
        ("j.", VerbImpl::NotImplemented),
        ("L.", VerbImpl::NotImplemented),
        ("o.", VerbImpl::NotImplemented),
        ("p.", VerbImpl::NotImplemented),
        ("p..", VerbImpl::NotImplemented),
        ("p:", VerbImpl::NotImplemented),
        ("q:", VerbImpl::NotImplemented),
        ("r.", VerbImpl::NotImplemented),
        ("s:", VerbImpl::NotImplemented),
        ("T.", VerbImpl::NotImplemented),
        ("u:", VerbImpl::NotImplemented),
        ("x:", VerbImpl::NotImplemented),
        ("Z:", VerbImpl::NotImplemented),
        ("_9:", VerbImpl::NotImplemented),
        ("_8:", VerbImpl::NotImplemented),
        ("_7:", VerbImpl::NotImplemented),
        ("_6:", VerbImpl::NotImplemented),
        ("_5:", VerbImpl::NotImplemented),
        ("_4:", VerbImpl::NotImplemented),
        ("_3:", VerbImpl::NotImplemented),
        ("_2:", VerbImpl::NotImplemented),
        ("_1:", VerbImpl::NotImplemented),
        ("0:", VerbImpl::NotImplemented),
        ("1:", VerbImpl::NotImplemented),
        ("2:", VerbImpl::NotImplemented),
        ("3:", VerbImpl::NotImplemented),
        ("4:", VerbImpl::NotImplemented),
        ("5:", VerbImpl::NotImplemented),
        ("6:", VerbImpl::NotImplemented),
        ("7:", VerbImpl::NotImplemented),
        ("8:", VerbImpl::NotImplemented),
        ("9", VerbImpl::NotImplemented),
        ("u.", VerbImpl::NotImplemented),
        ("v.", VerbImpl::NotImplemented),
        ("NB.", VerbImpl::NotImplemented),
        ("{{", VerbImpl::NotImplemented),
        ("}}", VerbImpl::NotImplemented),
        ("assert.", VerbImpl::NotImplemented),
        ("break.", VerbImpl::NotImplemented),
        ("continue.", VerbImpl::NotImplemented),
        ("else.", VerbImpl::NotImplemented),
        ("elseif.", VerbImpl::NotImplemented),
        ("for.", VerbImpl::NotImplemented),
        ("for_ijk.", VerbImpl::NotImplemented),
        ("goto_lbl.", VerbImpl::NotImplemented),
        ("label_lbl.", VerbImpl::NotImplemented),
        ("if.", VerbImpl::NotImplemented),
        ("return.", VerbImpl::NotImplemented),
        ("select.", VerbImpl::NotImplemented),
        ("case.", VerbImpl::NotImplemented),
        ("fcase.", VerbImpl::NotImplemented),
        ("throw.", VerbImpl::NotImplemented),
        ("try.", VerbImpl::NotImplemented),
        ("catch.", VerbImpl::NotImplemented),
        ("catchd.", VerbImpl::NotImplemented),
        ("catcht.", VerbImpl::NotImplemented),
        ("while.", VerbImpl::NotImplemented),
        ("whilst.", VerbImpl::NotImplemented),    ]
}

fn primitive_adverbs() -> (r: Vec<(&'static str, AdverbImpl)>)
    ensures
        r@ == adverb_table(),
{
    vec![
        ("~", AdverbImpl::NotImplemented),
        ("/", AdverbImpl::Slash),
        ("/.", AdverbImpl::NotImplemented),
        ("\\", AdverbImpl::NotImplemented),
        ("\\.", AdverbImpl::NotImplemented),
        ("]:", AdverbImpl::NotImplemented),
        ("}", AdverbImpl::CurlyRt),
        ("b.", AdverbImpl::NotImplemented),
        ("f.", AdverbImpl::NotImplemented),
        ("M.", AdverbImpl::NotImplemented),    ]
}

fn primitive_nouns() -> (r: Vec<(&'static str, ())>)
    ensures
        r@ == noun_table(),
{
    vec![
        ("_", ()),
        ("_.", ()),
        ("a.", ()),
        ("a:", ()),    ]
}

fn primitive_conjunctions() -> (r: Vec<(&'static str, ())>)
    ensures
        r@ == conjunction_table(),
{
    vec![
        ("^:", ()),
        (".", ()),
        (":", ()),
        (":.", ()),
        ("::", ()),
        (";.", ()),
        ("!.", ()),
        ("!:", ()),
        ("[.", ()),
        ("].", ()),
        ("\"", ()),
        ("`", ()),
        ("`:", ()),
        ("@", ()),
        ("@.", ()),
        ("@:", ()),
        ("&", ()),
        ("&.", ()),
        ("&:", ()),
        ("&.:", ()),
        ("d.", ()),
        ("D.", ()),
        ("D:", ()),
        ("F.", ()),
        ("F..", ()),
        ("F.:", ()),
        ("F:", ()),
        ("F:.", ()),
        ("F::", ()),
        ("H.", ()),
        ("L:", ()),
        ("S:", ()),
        ("t.", ()),    ]
}


/// The value that the first entry of `table` spelled `t` holds.
pub open spec fn find_entry<X>(table: Seq<(&'static str, X)>, t: Seq<char>) -> Option<X>
    decreases table.len(),
{
    if table.len() == 0 {
        None
    } else if table[0].0@ == t {
        Some(table[0].1)
    } else {
        find_entry(table.drop_first(), t)
    }
}

/// Whether the string `a` is spelled `b`.
pub fn spelled(a: &str, b: &Vec<char>) -> (r: bool)
    ensures
        r == (a@ == b@),
{
    let n = a.unicode_len();
    if n != b.len() {
        return false;
    }
    let mut i: usize = 0;
    while i < n
        invariant
            n == a@.len(),
            n == b@.len(),
            i <= n,
            forall|j: int| 0 <= j < i ==> a@[j] == b@[j],
        decreases n - i,
    {
        if a.get_char(i) != b[i] {
            return false;
        }
        i = i + 1;
    }
    assert(a@ =~= b@);
    true
}

/// Index of the first entry of `table` spelled `t`.
fn find_index<X>(table: &Vec<(&'static str, X)>, t: &Vec<char>) -> (r: Option<usize>)
    ensures
        r is None <==> find_entry(table@, t@) is None,
        r matches Some(i) ==> i < table@.len() && find_entry(table@, t@) == Some(table@[i as int].1),
{
    let mut i: usize = 0;
    assert(table@.skip(0) =~= table@);
    while i < table.len()
        invariant
            i <= table@.len(),
            find_entry(table@, t@) == find_entry(table@.skip(i as int), t@),
        decreases table.len() - i,
    {
        assert(table@.skip(i as int)[0] == table@[i as int]);
        if spelled(table[i].0, t) {
            return Some(i);
        }
        assert(table@.skip(i as int).drop_first() =~= table@.skip(i + 1));
        i = i + 1;
    }
    None
}

/// The word that the primitive spelled `t` stands for, or the error `Invalid primitive`.
pub open spec fn primitive_word(t: Seq<char>) -> Outcome<WordV> {
    if find_entry(noun_table(), t) is Some {
        Outcome::Value(char_vector_word(t))
    } else if find_entry(verb_table(), t) is Some {
        Outcome::Value(WordV::Verb(t, Box::new(find_entry(verb_table(), t)->0@)))
    } else if find_entry(adverb_table(), t) is Some {
        Outcome::Value(WordV::Adverb(t, find_entry(adverb_table(), t)->0))
    } else if find_entry(conjunction_table(), t) is Some {
        Outcome::Value(WordV::Conjunction(t))
    } else if t == seq!['=', ':'] {
        Outcome::Value(WordV::IsGlobal)
    } else if t == seq!['=', '.'] {
        Outcome::Value(WordV::IsLocal)
    } else {
        Outcome::Failure("Invalid primitive"@)
    }
}

/// A string made of the characters `v` (`String`'s `FromIterator<char>`).
#[verifier::external_body]
pub(crate) fn string_from_chars(v: &Vec<char>) -> (r: String)
    ensures
        r@ == v@,
{
    v.iter().collect()
}

/// The word that the primitive spelled `sentence` stands for.
pub fn str_to_primitive(sentence: &Vec<char>) -> (r: Result<Word, JError>)
    requires
        sentence@.len() <= isize::MAX,
    ensures
        word_result_is(r, primitive_word(sentence@)),
        r matches Ok(w) ==> word_wf(w@),
{
    let nouns = primitive_nouns();
    if let Some(_) = find_index(&nouns, sentence) {
        // a primitive noun stands for its own spelling
        return Ok(char_vector(sentence.clone()));
    }
    let verbs = primitive_verbs();
    if let Some(i) = find_index(&verbs, sentence) {
        let refd = verbs[i].1.copy();
        return Ok(Word::Verb(string_from_chars(sentence), Box::new(refd)));
    }
    let adverbs = primitive_adverbs();
    if let Some(i) = find_index(&adverbs, sentence) {
        return Ok(Word::Adverb(string_from_chars(sentence), adverbs[i].1));
    }
    let conjunctions = primitive_conjunctions();
    if let Some(_) = find_index(&conjunctions, sentence) {
        return Ok(Word::Conjunction(string_from_chars(sentence)));
    }
    if sentence.len() == 2 && sentence[0] == '=' && sentence[1] == ':' {
        assert(sentence@ =~= seq!['=', ':']);
        return Ok(Word::IsGlobal);
    }
    if sentence.len() == 2 && sentence[0] == '=' && sentence[1] == '.' {
        assert(sentence@ =~= seq!['=', '.']);
        return Ok(Word::IsLocal);
    }
    Err(JError::new("Invalid primitive"))
}

} // verus!
