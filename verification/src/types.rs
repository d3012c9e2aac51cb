//! The term model: the tagged-union value type shared by every component,
//! its mathematical (spec-level) counterpart, and the error taxonomy.

use vstd::prelude::*;

verus! {

/// The native functions this snapshot of the language ships with. Function
/// terms carry one of these tags rather than an open-ended callable, which
/// keeps dispatch closed and checkable.
#[derive(Clone, Copy, Debug, PartialEq, Eq, Structural)]
pub enum Builtin {
    Add,
    Sub,
    Mul,
    Div,
}

/// One key/value pair of a map term, in insertion order.
#[derive(Debug)]
pub struct MapEntry {
    pub key: String,
    pub val: MalType,
}

/// A map term: string keys to terms. Held as the ordered sequence of pairs the
/// reader produced (a later pair for the same key shadows an earlier one), so
/// rendering is deterministic for a given value.
#[derive(Debug)]
pub struct MalHashMap {
    pub entries: Vec<MapEntry>,
}

/// The single recursive value type of the language: both code and data.
#[derive(Debug)]
pub enum MalType {
    Nil,
    Bool(bool),
    Int(i32),
    Keyword(String),
    Symbol(String),
    Str(String),
    List(Vec<MalType>),
    Vector(Vec<MalType>),
    HashMap(MalHashMap),
    Fun(Builtin),
}

/// Spec-level map pair: key characters and the value's abstract term.
pub struct EntryV {
    pub key: Seq<char>,
    pub val: TermV,
}

/// The abstract (spec-level) shape of a term: strings as character sequences,
/// containers as sequences. Map pairs keep their stored order here; use
/// `crate::env::frame_map` to compare maps without regard to pair order.
pub enum TermV {
    Nil,
    Bool(bool),
    Int(i32),
    Keyword(Seq<char>),
    Symbol(Seq<char>),
    Str(Seq<char>),
    List(Seq<TermV>),
    Vector(Seq<TermV>),
    HashMap(Seq<EntryV>),
    Fun(Builtin),
}

/// Abstract shape of a sequence of terms, element by element.
pub open spec fn terms_view(s: Seq<MalType>) -> Seq<TermV>
    decreases s, 0int,
{
    if s.len() == 0 {
        Seq::empty()
    } else {
        seq![term_view(s[0])] + terms_view(s.subrange(1, s.len() as int))
    }
}

/// Abstract shape of a sequence of map entries, element by element.
pub open spec fn entries_view(s: Seq<MapEntry>) -> Seq<EntryV>
    decreases s, 0int,
{
    if s.len() == 0 {
        Seq::empty()
    } else {
        seq![EntryV { key: s[0].key@, val: term_view(s[0].val) }] + entries_view(
            s.subrange(1, s.len() as int),
        )
    }
}

/// Abstract shape of one term.
pub open spec fn term_view(t: MalType) -> TermV
    decreases t, 1int,
{
    match t {
        MalType::Nil => TermV::Nil,
        MalType::Bool(b) => TermV::Bool(b),
        MalType::Int(i) => TermV::Int(i),
        MalType::Keyword(s) => TermV::Keyword(s@),
        MalType::Symbol(s) => TermV::Symbol(s@),
        MalType::Str(s) => TermV::Str(s@),
        MalType::List(l) => TermV::List(terms_view(l@)),
        MalType::Vector(l) => TermV::Vector(terms_view(l@)),
        MalType::HashMap(m) => TermV::HashMap(entries_view(m.entries@)),
        MalType::Fun(b) => TermV::Fun(b),
    }
}

impl View for MapEntry {
    type V = EntryV;

    open spec fn view(&self) -> EntryV {
        EntryV { key: self.key@, val: term_view(self.val) }
    }
}

impl View for MalHashMap {
    type V = Seq<EntryV>;

    open spec fn view(&self) -> Seq<EntryV> {
        entries_view(self.entries@)
    }
}

impl View for MalType {
    type V = TermV;

    open spec fn view(&self) -> TermV {
        term_view(*self)
    }
}

/// Basic shape facts about `terms_view`: length, and each element's view.
pub broadcast proof fn lemma_terms_view(s: Seq<MalType>)
    ensures
        (#[trigger] terms_view(s)).len() == s.len(),
        forall|i: int| 0 <= i < s.len() ==> terms_view(s)[i] == term_view(#[trigger] s[i]),
    decreases s.len(),
{
    if s.len() > 0 {
        let rest = s.subrange(1, s.len() as int);
        lemma_terms_view(rest);
        assert forall|i: int| 0 <= i < s.len() implies terms_view(s)[i] == term_view(
            #[trigger] s[i],
        ) by {
            if i > 0 {
                assert(terms_view(s)[i] == terms_view(rest)[i - 1]);
                assert(rest[i - 1] == s[i]);
            }
        }
    }
}

/// Basic shape facts about `entries_view`: length, and each entry's view.
pub broadcast proof fn lemma_entries_view(s: Seq<MapEntry>)
    ensures
        (#[trigger] entries_view(s)).len() == s.len(),
        forall|i: int|
            0 <= i < s.len() ==> entries_view(s)[i] == (EntryV {
                key: (#[trigger] s[i]).key@,
                val: term_view(s[i].val),
            }),
    decreases s.len(),
{
    if s.len() > 0 {
        let rest = s.subrange(1, s.len() as int);
        lemma_entries_view(rest);
        assert forall|i: int|
            0 <= i < s.len() implies entries_view(s)[i] == (EntryV {
            key: (#[trigger] s[i]).key@,
            val: term_view(s[i].val),
        }) by {
            if i > 0 {
                assert(entries_view(s)[i] == entries_view(rest)[i - 1]);
                assert(rest[i - 1] == s[i]);
            }
        }
    }
}

/// Appending one term appends its abstract shape.
pub proof fn lemma_terms_view_push(s: Seq<MalType>, x: MalType)
    ensures
        terms_view(s.push(x)) == terms_view(s).push(term_view(x)),
        terms_view(s).push(term_view(x)) == terms_view(s) + seq![term_view(x)],
{
    lemma_terms_view(s.push(x));
    lemma_terms_view(s);
    assert forall|j: int| 0 <= j < s.len() + 1 implies terms_view(s.push(x))[j] == terms_view(
        s,
    ).push(term_view(x))[j] by {
        assert(terms_view(s.push(x))[j] == term_view(s.push(x)[j]));
        if j < s.len() {
            assert(s.push(x)[j] == s[j]);
            assert(terms_view(s)[j] == term_view(s[j]));
        } else {
            assert(s.push(x)[j] == x);
        }
    }
    assert(terms_view(s.push(x)) =~= terms_view(s).push(term_view(x)));
    assert(terms_view(s).push(term_view(x)) =~= terms_view(s) + seq![term_view(x)]);
}

/// Appending one map entry appends its abstract shape.
pub proof fn lemma_entries_view_push(s: Seq<MapEntry>, x: MapEntry)
    ensures
        entries_view(s.push(x)) == entries_view(s).push(
            EntryV { key: x.key@, val: term_view(x.val) },
        ),
        entries_view(s).push(EntryV { key: x.key@, val: term_view(x.val) }) == entries_view(s)
            + seq![EntryV { key: x.key@, val: term_view(x.val) }],
{
    lemma_entries_view(s.push(x));
    lemma_entries_view(s);
    let xv = EntryV { key: x.key@, val: term_view(x.val) };
    assert forall|j: int| 0 <= j < s.len() + 1 implies entries_view(s.push(x))[j] == entries_view(
        s,
    ).push(xv)[j] by {
        assert(entries_view(s.push(x))[j] == (EntryV {
            key: s.push(x)[j].key@,
            val: term_view(s.push(x)[j].val),
        }));
        if j < s.len() {
            assert(s.push(x)[j] == s[j]);
            assert(entries_view(s)[j] == (EntryV { key: s[j].key@, val: term_view(s[j].val) }));
        } else {
            assert(s.push(x)[j] == x);
        }
    }
    assert(entries_view(s.push(x)) =~= entries_view(s).push(xv));
    assert(entries_view(s).push(xv) =~= entries_view(s) + seq![xv]);
}

impl MalType {
    /// True exactly of list terms.
    pub fn is_list(&self) -> (r: bool)
        ensures
            r == (self@ is List),
    {
        if let MalType::List(_) = *self {
            true
        } else {
            false
        }
    }

    /// The textual key a map entry may use: the characters of a string or
    /// keyword term, and nothing for any other variant.
    pub fn get_string(&self) -> (r: Option<String>)
        ensures
            match r {
                Some(s) => (self@ matches TermV::Str(t) && s@ == t) || (self@
                    matches TermV::Keyword(t) && s@ == t),
                None => !(self@ is Str) && !(self@ is Keyword),
            },
    {
        match self {
            MalType::Str(s) => Some(s.clone()),
            MalType::Keyword(s) => Some(s.clone()),
            _ => None,
        }
    }
}

/// Copy of a sequence of terms, element by element.
pub fn copy_terms(l: &Vec<MalType>) -> (r: Vec<MalType>)
    ensures
        terms_view(r@) == terms_view(l@),
        r@.len() == l@.len(),
    decreases l, 0int,
{
    let mut r: Vec<MalType> = Vec::new();
    let mut i: usize = 0;
    while i < l.len()
        invariant
            i <= l.len(),
            r@.len() == i,
            forall|j: int| 0 <= j < i ==> term_view(#[trigger] r@[j]) == term_view(l@[j]),
        decreases l.len() - i,
    {
        r.push(l[i].deep_copy());
        i = i + 1;
    }
    proof {
        lemma_terms_view(r@);
        lemma_terms_view(l@);
        assert forall|j: int| 0 <= j < l@.len() implies terms_view(r@)[j] == terms_view(
            l@,
        )[j] by {
            assert(terms_view(r@)[j] == term_view(r@[j]));
            assert(terms_view(l@)[j] == term_view(l@[j]));
        }
        assert(terms_view(r@) =~= terms_view(l@));
    }
    r
}

/// Copy of a sequence of map entries, pair by pair.
pub fn copy_entries(l: &Vec<MapEntry>) -> (r: Vec<MapEntry>)
    ensures
        entries_view(r@) == entries_view(l@),
        r@.len() == l@.len(),
    decreases l, 0int,
{
    let mut r: Vec<MapEntry> = Vec::new();
    let mut i: usize = 0;
    while i < l.len()
        invariant
            i <= l.len(),
            r@.len() == i,
            forall|j: int|
                0 <= j < i ==> (#[trigger] r@[j]).key@ == l@[j].key@ && term_view(r@[j].val)
                    == term_view(l@[j].val),
        decreases l.len() - i,
    {
        let e = MapEntry { key: l[i].key.clone(), val: l[i].val.deep_copy() };
        r.push(e);
        i = i + 1;
    }
    proof {
        lemma_entries_view(r@);
        lemma_entries_view(l@);
        assert forall|j: int| 0 <= j < l@.len() implies entries_view(r@)[j] == entries_view(
            l@,
        )[j] by {
            assert(entries_view(r@)[j] == (EntryV {
                key: r@[j].key@,
                val: term_view(r@[j].val),
            }));
            assert(entries_view(l@)[j] == (EntryV {
                key: l@[j].key@,
                val: term_view(l@[j].val),
            }));
        }
        assert(entries_view(r@) =~= entries_view(l@));
    }
    r
}

impl MalType {
    /// A structurally equal copy: containers own their elements outright, so
    /// copying is the only way a term's value crosses an ownership boundary.
    pub fn deep_copy(&self) -> (r: MalType)
        ensures
            r@ == self@,
        decreases self, 1int,
    {
        match self {
            MalType::Nil => MalType::Nil,
            MalType::Bool(b) => MalType::Bool(*b),
            MalType::Int(i) => MalType::Int(*i),
            MalType::Keyword(s) => MalType::Keyword(s.clone()),
            MalType::Symbol(s) => MalType::Symbol(s.clone()),
            MalType::Str(s) => MalType::Str(s.clone()),
            MalType::List(l) => MalType::List(copy_terms(l)),
            MalType::Vector(l) => MalType::Vector(copy_terms(l)),
            MalType::HashMap(m) => MalType::HashMap(MalHashMap { entries: copy_entries(&m.entries) }),
            MalType::Fun(b) => MalType::Fun(*b),
        }
    }
}

/// Relies on std's `String: FromIterator<char>` (via `Iterator::collect`):
/// collecting characters yields the string of exactly those characters.
#[verifier::external_body]
pub fn chars_to_string(v: &Vec<char>) -> (r: String)
    ensures
        r@ == v@,
{
    v.iter().collect()
}

/// The characters of a string, as a vector.
pub fn string_to_chars(s: &str) -> (r: Vec<char>)
    ensures
        r@ == s@,
{
    let n = s.unicode_len();
    let mut r: Vec<char> = Vec::new();
    let mut i: usize = 0;
    while i < n
        invariant
            i <= n,
            n == s@.len(),
            r@ == s@.subrange(0, i as int),
        decreases n - i,
    {
        r.push(s.get_char(i));
        proof {
            assert(r@ =~= s@.subrange(0, i as int + 1));
        }
        i = i + 1;
    }
    proof {
        assert(r@ =~= s@);
    }
    r
}

/// Character-by-character string equality.
pub fn str_eq(a: &str, b: &str) -> (r: bool)
    ensures
        r == (a@ == b@),
{
    let la = a.unicode_len();
    let lb = b.unicode_len();
    if la != lb {
        return false;
    }
    let mut i: usize = 0;
    while i < la
        invariant
            i <= la,
            la == a@.len(),
            la == b@.len(),
            forall|j: int| 0 <= j < i ==> a@[j] == b@[j],
        decreases la - i,
    {
        if a.get_char(i) != b.get_char(i) {
            return false;
        }
        i = i + 1;
    }
    proof {
        assert(a@ =~= b@);
    }
    true
}

/// The closed set of failure kinds. `Empty` is not a true failure: it signals
/// that the input held no form to evaluate.
#[derive(Debug, Clone)]
pub enum MalError {
    Empty,
    NotFoundError,
    ParseError(String),
    RuntimeError(String),
}

/// Spec-level failure kind, with diagnostic message text abstracted away.
pub enum ErrV {
    Empty,
    NotFound,
    Parse,
    Runtime,
}

impl View for MalError {
    type V = ErrV;

    open spec fn view(&self) -> ErrV {
        match self {
            MalError::Empty => ErrV::Empty,
            MalError::NotFoundError => ErrV::NotFound,
            MalError::ParseError(_) => ErrV::Parse,
            MalError::RuntimeError(_) => ErrV::Runtime,
        }
    }
}

pub type MalList = Vec<MalType>;

pub type MalResult<T> = Result<T, MalError>;

/// An executable outcome agrees with an abstract one: same success or failure,
/// with the same abstract term or failure kind.
pub open spec fn res_matches(r: MalResult<MalType>, s: Result<TermV, ErrV>) -> bool {
    match r {
        Ok(t) => s == Ok::<TermV, ErrV>(term_view(t)),
        Err(e) => s == Err::<TermV, ErrV>(e@),
    }
}

} // verus!
