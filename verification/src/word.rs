//! The parts of speech of J (nouns, verbs, adverbs, ...), their mathematical
//! values, and the error type of the interpreter.
use vstd::prelude::*;
use crate::array::{NdArray, NdView, vector_view};

verus! {

/// An element of a floating-point array, kept as the term that produces its value:
/// a decimal literal as written (with `-` for J's `_`), an integer converted to
/// floating point, or the floating-point sum of two such terms.
#[derive(Debug, PartialEq)]
pub enum FloatItem {
    Literal(Vec<char>),
    FromInt(i64),
    Sum(Box<FloatItem>, Box<FloatItem>),
}

/// The mathematical value of a `FloatItem`.
pub enum FloatV {
    Literal(Seq<char>),
    FromInt(i64),
    Sum(Box<FloatV>, Box<FloatV>),
}

pub open spec fn float_view(f: FloatItem) -> FloatV
    decreases f,
{
    match f {
        FloatItem::Literal(t) => FloatV::Literal(t@),
        FloatItem::FromInt(i) => FloatV::FromInt(i),
        FloatItem::Sum(a, b) => FloatV::Sum(Box::new(float_view(*a)), Box::new(float_view(*b))),
    }
}

impl View for FloatItem {
    type V = FloatV;

    open spec fn view(&self) -> FloatV {
        float_view(*self)
    }
}

impl FloatItem {
    /// A copy of this term.
    pub fn copy(&self) -> (r: FloatItem)
        ensures
            r@ == self@,
        decreases self,
    {
        match self {
            FloatItem::Literal(t) => FloatItem::Literal(t.clone()),
            FloatItem::FromInt(i) => FloatItem::FromInt(*i),
            FloatItem::Sum(a, b) => {
                let ca = (**a).copy();
                let cb = (**b).copy();
                FloatItem::Sum(Box::new(ca), Box::new(cb))
            },
        }
    }
}

/// A noun: an array of one of J's element types.
#[derive(Debug, PartialEq)]
#[allow(inconsistent_fields)]
pub enum JArray {
    IntArray { a: NdArray<i64> },
    ExtIntArray { a: NdArray<i128> },
    FloatArray { a: NdArray<FloatItem> },
    BoolArray { a: NdArray<u8> },
    CharArray { a: NdArray<char> },
}

/// The mathematical value of a `JArray`.
pub enum ArrayV {
    Int(NdView<i64>),
    ExtInt(NdView<i128>),
    Float(NdView<FloatV>),
    Bool(NdView<u8>),
    Char(NdView<char>),
}

pub open spec fn float_items_view(s: Seq<FloatItem>) -> Seq<FloatV> {
    s.map_values(|f: FloatItem| f@)
}

/// The value of an array of floating-point terms.
pub open spec fn float_nd(a: NdView<FloatItem>) -> NdView<FloatV> {
    NdView { shape: a.shape, data: float_items_view(a.data) }
}

impl View for JArray {
    type V = ArrayV;

    open spec fn view(&self) -> ArrayV {
        match *self {
            JArray::IntArray { a } => ArrayV::Int(a@),
            JArray::ExtIntArray { a } => ArrayV::ExtInt(a@),
            JArray::FloatArray { a } => ArrayV::Float(float_nd(a@)),
            JArray::BoolArray { a } => ArrayV::Bool(a@),
            JArray::CharArray { a } => ArrayV::Char(a@),
        }
    }
}

impl ArrayV {
    pub open spec fn shape(self) -> Seq<usize> {
        match self {
            ArrayV::Int(a) => a.shape,
            ArrayV::ExtInt(a) => a.shape,
            ArrayV::Float(a) => a.shape,
            ArrayV::Bool(a) => a.shape,
            ArrayV::Char(a) => a.shape,
        }
    }

    /// Number of elements.
    pub open spec fn len(self) -> nat {
        match self {
            ArrayV::Int(a) => a.data.len(),
            ArrayV::ExtInt(a) => a.data.len(),
            ArrayV::Float(a) => a.data.len(),
            ArrayV::Bool(a) => a.data.len(),
            ArrayV::Char(a) => a.data.len(),
        }
    }

    pub open spec fn wf(self) -> bool {
        match self {
            ArrayV::Int(a) => a.wf(),
            ArrayV::ExtInt(a) => a.wf(),
            ArrayV::Float(a) => a.wf(),
            ArrayV::Bool(a) => a.wf(),
            ArrayV::Char(a) => a.wf(),
        }
    }
}

/// A word of a J sentence. (The terminology follows J's glossary.)
#[derive(Debug, PartialEq)]
pub enum Word {
    LP,
    RP,
    StartOfLine,  // placeholder while parsing
    Nothing,  // placeholder while parsing
    Name(String),
    IsLocal,
    IsGlobal,
    Noun(JArray),
    Verb(String, Box<VerbImpl>),
    Adverb(String, AdverbImpl),
    Conjunction(String),
}

/// The implementation behind a verb.
#[derive(Debug, PartialEq)]
pub enum VerbImpl {
    Plus,
    Minus,
    Times,
    Number,
    Dollar,
    NotImplemented,
    /// A verb derived by an adverb, e.g. `+/`: `u` is the verb or `m` the noun that the
    /// adverb `a` modifies; the other one is `Nothing`.
    DerivedVerb { u: Word, m: Word, a: Word },
}

/// The implementation behind an adverb.
#[derive(Copy, Clone, Debug, PartialEq, Eq, Structural)]
pub enum AdverbImpl {
    Slash,
    CurlyRt,
    NotImplemented,
}

/// The mathematical value of a `Word`.
pub enum WordV {
    LP,
    RP,
    StartOfLine,
    Nothing,
    Name(Seq<char>),
    IsLocal,
    IsGlobal,
    Noun(ArrayV),
    Verb(Seq<char>, Box<VerbV>),
    Adverb(Seq<char>, AdverbImpl),
    Conjunction(Seq<char>),
}

/// The mathematical value of a `VerbImpl`.
pub enum VerbV {
    Plus,
    Minus,
    Times,
    Number,
    Dollar,
    NotImplemented,
    DerivedVerb(Box<WordV>, Box<WordV>, Box<WordV>),
}

pub open spec fn word_view(w: Word) -> WordV
    decreases w,
{
    match w {
        Word::LP => WordV::LP,
        Word::RP => WordV::RP,
        Word::StartOfLine => WordV::StartOfLine,
        Word::Nothing => WordV::Nothing,
        Word::Name(s) => WordV::Name(s@),
        Word::IsLocal => WordV::IsLocal,
        Word::IsGlobal => WordV::IsGlobal,
        Word::Noun(a) => WordV::Noun(a@),
        Word::Verb(s, v) => WordV::Verb(s@, Box::new(verb_view(*v))),
        Word::Adverb(s, a) => WordV::Adverb(s@, a),
        Word::Conjunction(s) => WordV::Conjunction(s@),
    }
}

pub open spec fn verb_view(v: VerbImpl) -> VerbV
    decreases v,
{
    match v {
        VerbImpl::Plus => VerbV::Plus,
        VerbImpl::Minus => VerbV::Minus,
        VerbImpl::Times => VerbV::Times,
        VerbImpl::Number => VerbV::Number,
        VerbImpl::Dollar => VerbV::Dollar,
        VerbImpl::NotImplemented => VerbV::NotImplemented,
        VerbImpl::DerivedVerb { u, m, a } => VerbV::DerivedVerb(
            Box::new(word_view(u)),
            Box::new(word_view(m)),
            Box::new(word_view(a)),
        ),
    }
}

impl View for Word {
    type V = WordV;

    open spec fn view(&self) -> WordV {
        word_view(*self)
    }
}

impl View for VerbImpl {
    type V = VerbV;

    open spec fn view(&self) -> VerbV {
        verb_view(*self)
    }
}

/// Every array inside the word is well formed.
pub open spec fn word_wf(w: WordV) -> bool
    decreases w,
{
    match w {
        WordV::Noun(a) => a.wf(),
        WordV::Verb(_, v) => verb_wf(*v),
        _ => true,
    }
}

pub open spec fn verb_wf(v: VerbV) -> bool
    decreases v,
{
    match v {
        VerbV::DerivedVerb(u, m, a) => word_wf(*u) && word_wf(*m) && word_wf(*a),
        _ => true,
    }
}

pub open spec fn words_wf(ws: Seq<WordV>) -> bool {
    forall|i: int| 0 <= i < ws.len() ==> #[trigger] word_wf(ws[i])
}

pub open spec fn words_view(ws: Seq<Word>) -> Seq<WordV> {
    ws.map_values(|w: Word| w@)
}

/// A copy of a sequence of floating-point terms.
pub fn copy_float_items(v: &Vec<FloatItem>) -> (r: Vec<FloatItem>)
    ensures
        float_items_view(r@) == float_items_view(v@),
{
    let mut r: Vec<FloatItem> = Vec::new();
    let mut i: usize = 0;
    while i < v.len()
        invariant
            i <= v.len(),
            float_items_view(r@) =~= float_items_view(v@.take(i as int)),
        decreases v.len() - i,
    {
        let c = v[i].copy();
        proof {
            assert(float_items_view(r@.push(c)) =~= float_items_view(r@).push(c@));
            assert(v@.take(i + 1) =~= v@.take(i as int).push(v@[i as int]));
            assert(float_items_view(v@.take(i + 1)) =~= float_items_view(v@.take(i as int)).push(
                v@[i as int]@,
            ));
        }
        r.push(c);
        i = i + 1;
    }
    assert(v@.take(v.len() as int) =~= v@);
    r
}

impl JArray {
    /// A copy of this array.
    pub fn copy(&self) -> (r: JArray)
        ensures
            r@ == self@,
    {
        match self {
            JArray::IntArray { a } => JArray::IntArray {
                a: NdArray { shape: a.shape.clone(), data: a.data.clone() },
            },
            JArray::ExtIntArray { a } => JArray::ExtIntArray {
                a: NdArray { shape: a.shape.clone(), data: a.data.clone() },
            },
            JArray::FloatArray { a } => {
                let data = copy_float_items(&a.data);
                let shape = a.shape.clone();
                assert(shape@ =~= a.shape@);
                JArray::FloatArray { a: NdArray { shape, data } }
            },
            JArray::BoolArray { a } => JArray::BoolArray {
                a: NdArray { shape: a.shape.clone(), data: a.data.clone() },
            },
            JArray::CharArray { a } => JArray::CharArray {
                a: NdArray { shape: a.shape.clone(), data: a.data.clone() },
            },
        }
    }
}

impl Word {
    /// A copy of this word.
    pub fn copy(&self) -> (r: Word)
        ensures
            r@ == self@,
        decreases self,
    {
        match self {
            Word::LP => Word::LP,
            Word::RP => Word::RP,
            Word::StartOfLine => Word::StartOfLine,
            Word::Nothing => Word::Nothing,
            Word::Name(s) => Word::Name(s.clone()),
            Word::IsLocal => Word::IsLocal,
            Word::IsGlobal => Word::IsGlobal,
            Word::Noun(a) => Word::Noun(a.copy()),
            Word::Verb(s, v) => {
                let cv = (**v).copy();
                Word::Verb(s.clone(), Box::new(cv))
            },
            Word::Adverb(s, a) => Word::Adverb(s.clone(), *a),
            Word::Conjunction(s) => Word::Conjunction(s.clone()),
        }
    }
}

impl VerbImpl {
    /// A copy of this verb implementation.
    pub fn copy(&self) -> (r: VerbImpl)
        ensures
            r@ == self@,
        decreases self,
    {
        match self {
            VerbImpl::Plus => VerbImpl::Plus,
            VerbImpl::Minus => VerbImpl::Minus,
            VerbImpl::Times => VerbImpl::Times,
            VerbImpl::Number => VerbImpl::Number,
            VerbImpl::Dollar => VerbImpl::Dollar,
            VerbImpl::NotImplemented => VerbImpl::NotImplemented,
            VerbImpl::DerivedVerb { u, m, a } => {
                let cu = u.copy();
                let cm = m.copy();
                let ca = a.copy();
                VerbImpl::DerivedVerb { u: cu, m: cm, a: ca }
            },
        }
    }
}

impl Clone for FloatItem {
    fn clone(&self) -> (r: FloatItem)
        ensures
            r@ == self@,
    {
        self.copy()
    }
}

impl Clone for JArray {
    fn clone(&self) -> (r: JArray)
        ensures
            r@ == self@,
    {
        self.copy()
    }
}

impl Clone for Word {
    fn clone(&self) -> (r: Word)
        ensures
            r@ == self@,
    {
        self.copy()
    }
}

impl Clone for VerbImpl {
    fn clone(&self) -> (r: VerbImpl)
        ensures
            r@ == self@,
    {
        self.copy()
    }
}

/// An error of the interpreter, with its message.
#[derive(Debug)]
pub struct JError {
    message: String,
}

impl View for JError {
    type V = Seq<char>;

    /// The message.
    closed spec fn view(&self) -> Seq<char> {
        self.message@
    }
}

impl JError {
    pub fn new(message: &str) -> (r: JError)
        ensures
            r@ == message@,
    {
        JError { message: String::from_str(message) }
    }

    pub fn message(&self) -> (r: &str)
        ensures
            r@ == self@,
    {
        self.message.as_str()
    }
}

/// What a computation of the interpreter comes to: a value, an error with its
/// message, or a panic (which the verified functions rule out by their preconditions).
pub enum Outcome<T> {
    Value(T),
    Failure(Seq<char>),
    Abort,
}

/// The executable result `r` is the outcome `o`.
pub open spec fn word_result_is(r: Result<Word, JError>, o: Outcome<WordV>) -> bool {
    match r {
        Ok(w) => o == Outcome::Value(w@),
        Err(e) => o == Outcome::<WordV>::Failure(e@),
    }
}

/// The noun holding the one-dimensional integer array `v`.
pub open spec fn int_vector_word(v: Seq<i64>) -> WordV {
    WordV::Noun(ArrayV::Int(vector_view(v)))
}

/// The noun holding the one-dimensional character array `v`.
pub open spec fn char_vector_word(v: Seq<char>) -> WordV {
    WordV::Noun(ArrayV::Char(vector_view(v)))
}

/// A one-dimensional integer array as a noun.
pub fn int_array(v: Vec<i64>) -> (r: Result<Word, JError>)
    requires
        v@.len() <= isize::MAX,
    ensures
        word_result_is(r, Outcome::Value(int_vector_word(v@))),
        r matches Ok(w) ==> word_wf(w@),
{
    Ok(Word::Noun(JArray::IntArray { a: NdArray::vector(v) }))
}

/// A one-dimensional character array holding the characters of `x`, as a noun.
pub fn char_array(x: &str) -> (r: Word)
    requires
        x@.len() <= isize::MAX,
    ensures
        r@ == char_vector_word(x@),
        word_wf(r@),
{
    let n = x.unicode_len();
    let mut v: Vec<char> = Vec::new();
    let mut i: usize = 0;
    while i < n
        invariant
            n == x@.len(),
            i <= n,
            v@ =~= x@.take(i as int),
        decreases n - i,
    {
        v.push(x.get_char(i));
        i = i + 1;
    }
    assert(x@.take(n as int) =~= x@);
    char_vector(v)
}

/// A one-dimensional character array as a noun.
pub fn char_vector(v: Vec<char>) -> (r: Word)
    requires
        v@.len() <= isize::MAX,
    ensures
        r@ == char_vector_word(v@),
        word_wf(r@),
{
    Word::Noun(JArray::CharArray { a: NdArray::vector(v) })
}

} // verus!
