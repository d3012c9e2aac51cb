//! The reader: a tokenizer over the surface grammar, and a recursive-descent
//! parser from tokens to terms.
//!
//! Tokens, in priority order at each position after whitespace and commas are
//! skipped: the two-character splice marker; one of the single characters
//! `( ) [ ] { } ' `` ` `` ~ ^ @`; a double-quoted string, tolerating a missing
//! closing quote so the parser can report it; a `;` comment running to end of
//! line; otherwise a maximal run of characters that end a bare token nowhere.

use vstd::prelude::*;

use crate::types::EntryV;
use crate::types::ErrV;
use crate::types::MalError;
use crate::types::MalResult;
use crate::types::MalType;
use crate::types::TermV;

verus! {

/// Whitespace for token separation; commas count as whitespace here.
pub open spec fn is_ws(c: char) -> bool {
    c == ' ' || c == '\t' || c == '\n' || c == '\r' || c == '\u{b}' || c == '\u{c}' || c == ','
}

/// Characters that are always single-character tokens.
pub open spec fn is_single(c: char) -> bool {
    c == '(' || c == ')' || c == '[' || c == ']' || c == '{' || c == '}' || c == '\'' || c == '`'
        || c == '~' || c == '^' || c == '@'
}

/// Characters at which a bare token ends.
pub open spec fn ends_bare(c: char) -> bool {
    is_ws(c) || c == '(' || c == ')' || c == '[' || c == ']' || c == '{' || c == '}' || c == '\''
        || c == '"' || c == '`' || c == ';'
}

/// Length of a string token's body from just after the opening quote: runs,
/// honoring backslash escapes, through the closing quote or to end of input.
pub open spec fn string_body_len(s: Seq<char>, i: int) -> nat
    decreases s.len() - i,
{
    if i < 0 || i >= s.len() {
        0
    } else if s[i] == '"' {
        1
    } else if s[i] == '\\' {
        if i + 1 < s.len() {
            (2 + string_body_len(s, i + 2)) as nat
        } else {
            1
        }
    } else {
        (1 + string_body_len(s, i + 1)) as nat
    }
}

/// Length of a comment token's body: to end of line or input.
pub open spec fn comment_len(s: Seq<char>, i: int) -> nat
    decreases s.len() - i,
{
    if i < 0 || i >= s.len() || s[i] == '\n' {
        0
    } else {
        (1 + comment_len(s, i + 1)) as nat
    }
}

/// Length of a bare token's tail.
pub open spec fn bare_len(s: Seq<char>, i: int) -> nat
    decreases s.len() - i,
{
    if i < 0 || i >= s.len() || ends_bare(s[i]) {
        0
    } else {
        (1 + bare_len(s, i + 1)) as nat
    }
}

/// Length of the token starting at a non-whitespace position.
pub open spec fn token_len(s: Seq<char>, i: int) -> nat {
    if s[i] == '~' && i + 1 < s.len() && s[i + 1] == '@' {
        2
    } else if is_single(s[i]) {
        1
    } else if s[i] == '"' {
        (1 + string_body_len(s, i + 1)) as nat
    } else if s[i] == ';' {
        (1 + comment_len(s, i + 1)) as nat
    } else {
        (1 + bare_len(s, i + 1)) as nat
    }
}

/// The tokens of the input from a position on.
pub open spec fn tokens_from(s: Seq<char>, i: int) -> Seq<Seq<char>>
    decreases s.len() - i,
{
    if i < 0 || i >= s.len() {
        Seq::empty()
    } else if is_ws(s[i]) {
        tokens_from(s, i + 1)
    } else {
        let n = token_len(s, i);
        let k = if i + n <= s.len() {
            i + n
        } else {
            s.len() as int
        };
        seq![s.subrange(i, k)] + tokens_from(s, k)
    }
}

/// The ordered tokens of the whole input.
pub open spec fn tokenize_spec(s: Seq<char>) -> Seq<Seq<char>> {
    tokens_from(s, 0)
}

/// A scan never runs past the end of the input.
proof fn lemma_scan_bounds(s: Seq<char>, i: int)
    requires
        0 <= i <= s.len(),
    ensures
        i + string_body_len(s, i) <= s.len(),
        i + comment_len(s, i) <= s.len(),
        i + bare_len(s, i) <= s.len(),
    decreases s.len() - i,
{
    if i < s.len() {
        lemma_scan_bounds(s, i + 1);
        if i + 2 <= s.len() {
            lemma_scan_bounds(s, i + 2);
        }
    }
}

/// Whitespace test, executable side.
fn ws_char(c: char) -> (r: bool)
    ensures
        r == is_ws(c),
{
    c == ' ' || c == '\t' || c == '\n' || c == '\r' || c == '\u{b}' || c == '\u{c}' || c == ','
}

/// Single-character-token test, executable side.
fn single_char(c: char) -> (r: bool)
    ensures
        r == is_single(c),
{
    c == '(' || c == ')' || c == '[' || c == ']' || c == '{' || c == '}' || c == '\'' || c == '`'
        || c == '~' || c == '^' || c == '@'
}

/// Bare-token-terminator test, executable side.
fn bare_end_char(c: char) -> (r: bool)
    ensures
        r == ends_bare(c),
{
    ws_char(c) || c == '(' || c == ')' || c == '[' || c == ']' || c == '{' || c == '}' || c == '\''
        || c == '"' || c == '`' || c == ';'
}

/// Split the input into its ordered tokens.
#[verifier::loop_isolation(false)]
pub fn tokenize(s: &Vec<char>) -> (r: Vec<Vec<char>>)
    ensures
        r.deep_view() == tokenize_spec(s@),
{
    let mut out: Vec<Vec<char>> = Vec::new();
    let mut i: usize = 0;
    while i < s.len()
        invariant
            i <= s@.len(),
            out.deep_view() + tokens_from(s@, i as int) == tokens_from(s@, 0),
        decreases s@.len() - i,
    {
        if ws_char(s[i]) {
            i = i + 1;
            continue ;
        }
        // the token starts here; find where it ends
        let start = i;
        let c = s[i];
        let mut k: usize;
        if c == '~' && i + 1 < s.len() && s[i + 1] == '@' {
            k = i + 2;
        } else if single_char(c) {
            k = i + 1;
        } else if c == '"' {
            // string token: through the closing quote or to end of input
            k = i + 1;
            while k < s.len()
                invariant
                    i + 1 <= k <= s@.len(),
                    string_body_len(s@, i + 1) == (k - i - 1) + string_body_len(s@, k as int),
                decreases s@.len() - k,
            {
                if s[k] == '"' {
                    k = k + 1;
                    break ;
                }
                if s[k] == '\\' && k + 1 < s.len() {
                    k = k + 2;
                } else {
                    k = k + 1;
                }
            }
            proof {
                lemma_scan_bounds(s@, i as int + 1);
            }
        } else if c == ';' {
            // comment token: to end of line
            k = i + 1;
            while k < s.len() && s[k] != '\n'
                invariant
                    i + 1 <= k <= s@.len(),
                    comment_len(s@, i + 1) == (k - i - 1) + comment_len(s@, k as int),
                decreases s@.len() - k,
            {
                k = k + 1;
            }
            proof {
                lemma_scan_bounds(s@, i as int + 1);
            }
        } else {
            // bare token: to the next terminator
            k = i + 1;
            while k < s.len() && !bare_end_char(s[k])
                invariant
                    i + 1 <= k <= s@.len(),
                    bare_len(s@, i + 1) == (k - i - 1) + bare_len(s@, k as int),
                decreases s@.len() - k,
            {
                k = k + 1;
            }
            proof {
                lemma_scan_bounds(s@, i as int + 1);
            }
        }
        proof {
            assert(k == start + token_len(s@, start as int));
        }
        let mut tok: Vec<char> = Vec::new();
        let mut j: usize = start;
        while j < k
            invariant
                start <= j <= k,
                k <= s@.len(),
                tok@ == s@.subrange(start as int, j as int),
            decreases k - j,
        {
            tok.push(s[j]);
            j = j + 1;
        }
        proof {
            assert(tok@ =~= s@.subrange(start as int, k as int));
        }
        let ghost pre = out.deep_view();
        out.push(tok);
        proof {
            assert(out.deep_view() =~~= pre.push(tok@));
            assert(pre.push(tok@) + tokens_from(s@, k as int) =~= pre + (seq![tok@] + tokens_from(
                s@,
                k as int,
            )));
        }
        i = k;
    }
    proof {
        assert(out.deep_view() + tokens_from(s@, i as int) =~= out.deep_view());
    }
    out
}

/// Every character is a decimal digit.
pub open spec fn all_digits(s: Seq<char>) -> bool {
    forall|i: int| 0 <= i < s.len() ==> 48 <= #[trigger] s[i] as u32 <= 57
}

/// The value of a run of decimal digits.
pub open spec fn digits_val(s: Seq<char>) -> int
    decreases s.len(),
{
    if s.len() == 0 {
        0
    } else {
        digits_val(s.drop_last()) * 10 + (s.last() as u32 - 48)
    }
}

/// A digit run's value is never negative.
pub proof fn lemma_digits_nonneg(s: Seq<char>)
    requires
        all_digits(s),
    ensures
        digits_val(s) >= 0,
    decreases s.len(),
{
    if s.len() > 0 {
        assert(all_digits(s.drop_last()));
        lemma_digits_nonneg(s.drop_last());
    }
}

/// A prefix of a digit run never has a larger value than the whole run.
pub proof fn lemma_digits_prefix(s: Seq<char>, k: int)
    requires
        all_digits(s),
        0 <= k <= s.len(),
    ensures
        digits_val(s.subrange(0, k)) <= digits_val(s),
    decreases s.len(),
{
    if k == s.len() {
        assert(s.subrange(0, k) =~= s);
    } else {
        let d = s.drop_last();
        assert(all_digits(d));
        assert(d.subrange(0, k) =~= s.subrange(0, k));
        lemma_digits_prefix(d, k);
        lemma_digits_nonneg(d);
    }
}

/// The integer a bare token denotes, if any: an optional sign, then only
/// digits, with the value inside the fixed-width range.
pub open spec fn parse_int_spec(t: Seq<char>) -> Option<i32> {
    let signed = t.len() > 0 && (t[0] == '+' || t[0] == '-');
    let body = if signed {
        t.subrange(1, t.len() as int)
    } else {
        t
    };
    let neg = t.len() > 0 && t[0] == '-';
    if body.len() == 0 || !all_digits(body) {
        None
    } else {
        let v = if neg {
            -digits_val(body)
        } else {
            digits_val(body)
        };
        if v < i32::MIN as int || v > i32::MAX as int {
            None
        } else {
            Some(v as i32)
        }
    }
}

/// Parse a bare token as a fixed-width integer, if it is one.
#[verifier::loop_isolation(false)]
pub fn parse_int(t: &Vec<char>) -> (r: Option<i32>)
    ensures
        r == parse_int_spec(t@),
{
    let ghost signed = t@.len() > 0 && (t@[0] == '+' || t@[0] == '-');
    let mut start: usize = 0;
    let mut neg = false;
    if t.len() > 0 && (t[0] == '+' || t[0] == '-') {
        start = 1;
        if t[0] == '-' {
            neg = true;
        }
    }
    let ghost body = t@.subrange(start as int, t@.len() as int);
    proof {
        if !signed {
            assert(body =~= t@);
        }
    }
    if start >= t.len() {
        return None;
    }
    let mut mag: u64 = 0;
    let mut j: usize = start;
    while j < t.len()
        invariant
            start <= j <= t@.len(),
            mag <= 2147483648,
            all_digits(t@.subrange(start as int, j as int)),
            mag == digits_val(t@.subrange(start as int, j as int)),
        decreases t@.len() - j,
    {
        let c = t[j] as u32;
        if c < 48 || c > 57 {
            proof {
                assert(body[j - start] == t@[j as int]);
                assert(!all_digits(body));
            }
            return None;
        }
        let d = (c - 48) as u64;
        let ghost pre = t@.subrange(start as int, j as int);
        let ghost cur = t@.subrange(start as int, j as int + 1);
        proof {
            assert(cur.drop_last() =~= pre);
            assert(cur.last() == t@[j as int]);
            assert(t@[j as int] as u32 == c);
            assert forall|i: int| 0 <= i < cur.len() implies 48 <= #[trigger] cur[i] as u32
                <= 57 by {
                if i < cur.len() - 1 {
                    assert(cur[i] == pre[i]);
                } else {
                    assert(cur[i] == t@[j as int]);
                }
            }
            assert(all_digits(cur));
            assert(digits_val(cur) == digits_val(pre) * 10 + (t@[j as int] as u32 - 48));
        }
        mag = mag * 10 + d;
        j = j + 1;
        if mag > 2147483648 {
            proof {
                assert(cur =~= body.subrange(0, cur.len() as int));
                if all_digits(body) {
                    lemma_digits_prefix(body, cur.len() as int);
                }
            }
            return None;
        }
    }
    proof {
        assert(t@.subrange(start as int, t@.len() as int) == body);
        assert(mag == digits_val(body));
    }
    if neg {
        let v = -(mag as i64);
        proof {
            assert(v == -(mag as int));
        }
        Some(v as i32)
    } else {
        if mag > 2147483647 {
            return None;
        }
        Some(mag as i32)
    }
}

/// Walk a string token's raw characters from position `i`, given whether the
/// previous character was an unconsumed backslash: the decoded content of the
/// rest, and how many unescaped quotes it holds. `\n`, `\\` and `\"` decode;
/// any other escaped character is a parse failure, as is a dangling backslash
/// at the end.
pub open spec fn unescape_walk(t: Seq<char>, i: int, escaped: bool) -> Result<(Seq<char>, int), ErrV>
    decreases t.len() - i,
{
    if i < 0 || i >= t.len() {
        if escaped {
            Err(ErrV::Parse)
        } else {
            Ok((Seq::empty(), 0))
        }
    } else if escaped {
        let rep = if t[i] == 'n' {
            Some('\n')
        } else if t[i] == '\\' {
            Some('\\')
        } else if t[i] == '"' {
            Some('"')
        } else {
            None
        };
        match rep {
            None => Err(ErrV::Parse),
            Some(c) => match unescape_walk(t, i + 1, false) {
                Err(e) => Err(e),
                Ok(p) => Ok((seq![c] + p.0, p.1)),
            },
        }
    } else if t[i] == '\\' {
        unescape_walk(t, i + 1, true)
    } else if t[i] == '"' {
        match unescape_walk(t, i + 1, false) {
            Err(e) => Err(e),
            Ok(p) => Ok((p.0, p.1 + 1)),
        }
    } else {
        match unescape_walk(t, i + 1, false) {
            Err(e) => Err(e),
            Ok(p) => Ok((seq![t[i]] + p.0, p.1)),
        }
    }
}

/// The string literal a whole token (quotes included) denotes: its decoded
/// content, provided the escapes are well-formed and the token holds exactly
/// its two delimiting unescaped quotes.
pub open spec fn unescape_spec(t: Seq<char>) -> Result<Seq<char>, ErrV> {
    match unescape_walk(t, 0, false) {
        Err(e) => Err(e),
        Ok(p) => if p.1 != 2 {
            Err(ErrV::Parse)
        } else {
            Ok(p.0)
        },
    }
}

/// Decode a string token (quotes included) into a string term.
#[verifier::loop_isolation(false)]
pub fn parse_string(t: &Vec<char>) -> (r: MalResult<MalType>)
    ensures
        match r {
            Ok(v) => unescape_spec(t@) matches Ok(content) && v@ == TermV::Str(content),
            Err(e) => unescape_spec(t@) matches Err(ev) && e@ == ev,
        },
{
    let mut acc: Vec<char> = Vec::new();
    let mut quotes: usize = 0;
    let mut escaped = false;
    let mut i: usize = 0;
    while i < t.len()
        invariant
            i <= t@.len(),
            quotes <= i,
            match unescape_walk(t@, i as int, escaped) {
                Ok(p) => unescape_walk(t@, 0, false) == Ok::<(Seq<char>, int), ErrV>(
                    (acc@ + p.0, quotes + p.1),
                ),
                Err(e) => unescape_walk(t@, 0, false) == Err::<(Seq<char>, int), ErrV>(e),
            },
        decreases t@.len() - i,
    {
        let c = t[i];
        if escaped {
            let ghost pre = acc@;
            if c == 'n' {
                acc.push('\n');
            } else if c == '\\' {
                acc.push('\\');
            } else if c == '"' {
                acc.push('"');
            } else {
                return Err(
                    MalError::ParseError(
                        String::from_str("unknown escaped character in a string literal"),
                    ),
                );
            }
            proof {
                if let Ok(p) = unescape_walk(t@, i as int + 1, false) {
                    assert((pre + seq![acc@.last()]) + p.0 =~= pre + (seq![acc@.last()] + p.0));
                    assert(acc@ =~= pre + seq![acc@.last()]);
                }
            }
            escaped = false;
        } else if c == '\\' {
            escaped = true;
        } else if c == '"' {
            quotes = quotes + 1;
        } else {
            let ghost pre = acc@;
            acc.push(c);
            proof {
                if let Ok(p) = unescape_walk(t@, i as int + 1, false) {
                    assert((pre + seq![c]) + p.0 =~= pre + (seq![c] + p.0));
                    assert(acc@ =~= pre + seq![c]);
                }
            }
        }
        i = i + 1;
    }
    if escaped {
        return Err(
            MalError::ParseError(String::from_str("dangling escape backslash in a string literal")),
        );
    }
    if quotes != 2 {
        return Err(
            MalError::ParseError(
                String::from_str("a string literal needs exactly its two delimiting quotes"),
            ),
        );
    }
    proof {
        assert(acc@ + Seq::<char>::empty() =~= acc@);
    }
    Ok(MalType::Str(crate::types::chars_to_string(&acc)))
}

/// How a bare token is classified: an integer if it parses as one; the `nil`,
/// `true` and `false` literals; a string literal through the unescape rules; a
/// keyword after a leading colon; a comment standing for empty input; any
/// other text is a symbol.
pub open spec fn atom_spec(t: Seq<char>) -> Result<TermV, ErrV> {
    match parse_int_spec(t) {
        Some(n) => Ok(TermV::Int(n)),
        None => if t == seq!['n', 'i', 'l'] {
            Ok(TermV::Nil)
        } else if t == seq!['t', 'r', 'u', 'e'] {
            Ok(TermV::Bool(true))
        } else if t == seq!['f', 'a', 'l', 's', 'e'] {
            Ok(TermV::Bool(false))
        } else if t.len() > 0 && t[0] == '"' {
            match unescape_spec(t) {
                Ok(content) => Ok(TermV::Str(content)),
                Err(e) => Err(e),
            }
        } else if t.len() > 0 && t[0] == ':' {
            Ok(TermV::Keyword(t.subrange(1, t.len() as int)))
        } else if t.len() > 0 && t[0] == ';' {
            Err(ErrV::Empty)
        } else {
            Ok(TermV::Symbol(t))
        },
    }
}

/// The characters of a token from a position on, as a fresh vector.
fn tail_chars(t: &Vec<char>, from: usize) -> (r: Vec<char>)
    requires
        from <= t@.len(),
    ensures
        r@ == t@.subrange(from as int, t@.len() as int),
{
    let mut r: Vec<char> = Vec::new();
    let mut i: usize = from;
    while i < t.len()
        invariant
            from <= i <= t@.len(),
            r@ == t@.subrange(from as int, i as int),
        decreases t@.len() - i,
    {
        r.push(t[i]);
        proof {
            assert(r@ =~= t@.subrange(from as int, i as int + 1));
        }
        i = i + 1;
    }
    proof {
        assert(r@ =~= t@.subrange(from as int, t@.len() as int));
    }
    r
}

/// Classify one bare token as a term.
pub fn read_atom(t: &Vec<char>) -> (r: MalResult<MalType>)
    ensures
        crate::types::res_matches(r, atom_spec(t@)),
{
    if let Some(n) = parse_int(t) {
        return Ok(MalType::Int(n));
    }
    if t.len() == 3 && t[0] == 'n' && t[1] == 'i' && t[2] == 'l' {
        proof {
            assert(t@ =~= seq!['n', 'i', 'l']);
        }
        return Ok(MalType::Nil);
    }
    if t.len() == 4 && t[0] == 't' && t[1] == 'r' && t[2] == 'u' && t[3] == 'e' {
        proof {
            assert(t@ =~= seq!['t', 'r', 'u', 'e']);
        }
        return Ok(MalType::Bool(true));
    }
    if t.len() == 5 && t[0] == 'f' && t[1] == 'a' && t[2] == 'l' && t[3] == 's' && t[4] == 'e' {
        proof {
            assert(t@ =~= seq!['f', 'a', 'l', 's', 'e']);
        }
        return Ok(MalType::Bool(false));
    }
    proof {
        assert(t@ != seq!['n', 'i', 'l'] && t@ != seq!['t', 'r', 'u', 'e'] && t@ != seq![
            'f',
            'a',
            'l',
            's',
            'e',
        ]);
    }
    if t.len() > 0 && t[0] == '"' {
        return parse_string(t);
    }
    if t.len() > 0 && t[0] == ':' {
        let rest = tail_chars(t, 1);
        return Ok(MalType::Keyword(crate::types::chars_to_string(&rest)));
    }
    if t.len() > 0 && t[0] == ';' {
        return Err(MalError::Empty);
    }
    Ok(MalType::Symbol(crate::types::chars_to_string(t)))
}

/// The textual key a term can stand for in a map: the characters of a string
/// or keyword.
pub open spec fn key_chars(t: TermV) -> Option<Seq<char>> {
    match t {
        TermV::Str(s) => Some(s),
        TermV::Keyword(s) => Some(s),
        _ => None,
    }
}

/// Pair up the parsed children of a map form; a non-textual key is a parse
/// failure.
pub open spec fn map_pairs(items: Seq<TermV>) -> Result<Seq<EntryV>, ErrV>
    decreases items.len(),
{
    if items.len() < 2 {
        Ok(Seq::empty())
    } else {
        match key_chars(items[0]) {
            None => Err(ErrV::Parse),
            Some(k) => match map_pairs(items.subrange(2, items.len() as int)) {
                Err(e) => Err(e),
                Ok(es) => Ok(seq![EntryV { key: k, val: items[1] }] + es),
            },
        }
    }
}

/// What a map form's children denote: an even number of them, alternating
/// textual keys and values.
pub open spec fn map_items(items: Seq<TermV>) -> Result<Seq<EntryV>, ErrV> {
    if items.len() % 2 != 0 {
        Err(ErrV::Parse)
    } else {
        map_pairs(items)
    }
}

/// What parsing one form from position `i` of the token stream yields, and
/// the position just past it. An opening delimiter reads forms to its matching
/// closer; any other token is classified as an atom. The fuel only bounds the
/// recursion and never runs out for the fuel `read_spec` supplies.
pub open spec fn parse_form(toks: Seq<Seq<char>>, i: int, fuel: nat) -> (Result<TermV, ErrV>, int)
    decreases fuel,
{
    if fuel == 0 || i < 0 || i >= toks.len() {
        (Err(ErrV::Parse), i)
    } else {
        let t = toks[i];
        if t == seq!['('] {
            let p = parse_items(toks, i + 1, ')', (fuel - 1) as nat);
            (
                match p.0 {
                    Ok(vs) => Ok(TermV::List(vs)),
                    Err(e) => Err(e),
                },
                p.1,
            )
        } else if t == seq!['['] {
            let p = parse_items(toks, i + 1, ']', (fuel - 1) as nat);
            (
                match p.0 {
                    Ok(vs) => Ok(TermV::Vector(vs)),
                    Err(e) => Err(e),
                },
                p.1,
            )
        } else if t == seq!['{'] {
            let p = parse_items(toks, i + 1, '}', (fuel - 1) as nat);
            (
                match p.0 {
                    Ok(vs) => match map_items(vs) {
                        Ok(es) => Ok(TermV::HashMap(es)),
                        Err(e) => Err(e),
                    },
                    Err(e) => Err(e),
                },
                p.1,
            )
        } else {
            (atom_spec(t), i + 1)
        }
    }
}

/// What reading forms up to the closer `end` yields: the forms, and the
/// position just past the closer. A closer other than `end`, or running out of
/// tokens, is a parse failure.
pub open spec fn parse_items(toks: Seq<Seq<char>>, i: int, end: char, fuel: nat) -> (
    Result<Seq<TermV>, ErrV>,
    int,
)
    decreases fuel,
{
    if fuel == 0 || i < 0 || i >= toks.len() {
        (Err(ErrV::Parse), i)
    } else {
        let t = toks[i];
        if t == seq![')'] || t == seq![']'] || t == seq!['}'] {
            if t == seq![end] {
                (Ok(Seq::empty()), i + 1)
            } else {
                (Err(ErrV::Parse), i)
            }
        } else {
            let p = parse_form(toks, i, (fuel - 1) as nat);
            match p.0 {
                Err(e) => (Err(e), p.1),
                Ok(v) => {
                    let q = parse_items(toks, p.1, end, (fuel - 1) as nat);
                    match q.0 {
                        Err(e) => (Err(e), q.1),
                        Ok(vs) => (Ok(seq![v] + vs), q.1),
                    }
                },
            }
        }
    }
}

/// What reading one form from the whole input yields: tokenize, then parse
/// the first form; an input with no tokens at all holds nothing to evaluate.
pub open spec fn read_spec(s: Seq<char>) -> Result<TermV, ErrV> {
    let toks = tokenize_spec(s);
    if toks.len() == 0 {
        Err(ErrV::Empty)
    } else {
        parse_form(toks, 0, (2 * toks.len() + 2) as nat).0
    }
}

/// The view of each token in a token vector.
proof fn lemma_toks_view(v: Vec<Vec<char>>)
    ensures
        v.deep_view().len() == v@.len(),
        forall|i: int| 0 <= i < v@.len() ==> v.deep_view()[i] == (#[trigger] v@[i])@,
{
    assert forall|i: int| 0 <= i < v@.len() implies v.deep_view()[i] == (#[trigger] v@[i])@ by {
        assert(v.deep_view()[i] =~= v@[i]@);
    }
}

/// The token stream the parser walks: the tokens, and a cursor.
pub struct TokenState {
    pub tokens: Vec<Vec<char>>,
    pub idx: usize,
}

impl TokenState {
    /// Hand out the token under the cursor and advance past it; at the end of
    /// the stream, a parse failure.
    pub fn next(&mut self) -> (r: MalResult<Vec<char>>)
        ensures
            final(self).tokens == old(self).tokens,
            match r {
                Ok(t) => {
                    &&& old(self).idx < old(self).tokens@.len()
                    &&& t@ == old(self).tokens@[old(self).idx as int]@
                    &&& final(self).idx == old(self).idx + 1
                },
                Err(e) => {
                    &&& old(self).idx >= old(self).tokens@.len()
                    &&& e@ == ErrV::Parse
                    &&& final(self).idx == old(self).idx
                },
            },
    {
        if self.idx >= self.tokens.len() {
            return Err(MalError::ParseError(String::from_str("unexpected end of input")));
        }
        let t = tail_chars(&self.tokens[self.idx], 0);
        proof {
            assert(t@ =~= self.tokens@[self.idx as int]@);
        }
        self.idx = self.idx + 1;
        Ok(t)
    }

    /// Hand out the token under the cursor without advancing; at the end of
    /// the stream, a parse failure.
    pub fn peek(&self) -> (r: MalResult<Vec<char>>)
        ensures
            match r {
                Ok(t) => self.idx < self.tokens@.len() && t@ == self.tokens@[self.idx as int]@,
                Err(e) => self.idx >= self.tokens@.len() && e@ == ErrV::Parse,
            },
    {
        if self.idx >= self.tokens.len() {
            return Err(MalError::ParseError(String::from_str("unexpected end of input")));
        }
        let t = tail_chars(&self.tokens[self.idx], 0);
        proof {
            assert(t@ =~= self.tokens@[self.idx as int]@);
        }
        Ok(t)
    }
}

/// Read one form starting at the cursor.
fn read_form(ts: &mut TokenState, Ghost(fuel): Ghost<nat>) -> (r: MalResult<MalType>)
    requires
        old(ts).idx <= old(ts).tokens@.len(),
        fuel >= 2 * (old(ts).tokens@.len() - old(ts).idx) + 1,
    ensures
        final(ts).tokens == old(ts).tokens,
        final(ts).idx <= final(ts).tokens@.len(),
        ({
            let p = parse_form(old(ts).tokens.deep_view(), old(ts).idx as int, fuel);
            &&& crate::types::res_matches(r, p.0)
            &&& (r is Ok ==> final(ts).idx == p.1 && old(ts).idx < final(ts).idx)
        }),
    decreases old(ts).tokens@.len() - old(ts).idx, 0int,
{
    let ghost tv = ts.tokens.deep_view();
    proof {
        lemma_toks_view(ts.tokens);
    }
    let tok = match ts.next() {
        Ok(t) => t,
        Err(e) => {
            return Err(e);
        },
    };
    proof {
        assert(tok@ == tv[old(ts).idx as int]);
    }
    if tok.len() == 1 && tok[0] == '(' {
        proof {
            assert(tok@ =~= seq!['(']);
        }
        match read_list(ts, ')', Ghost((fuel - 1) as nat)) {
            Ok(items) => Ok(MalType::List(items)),
            Err(e) => Err(e),
        }
    } else if tok.len() == 1 && tok[0] == '[' {
        proof {
            assert(tok@ =~= seq!['[']);
        }
        match read_list(ts, ']', Ghost((fuel - 1) as nat)) {
            Ok(items) => Ok(MalType::Vector(items)),
            Err(e) => Err(e),
        }
    } else if tok.len() == 1 && tok[0] == '{' {
        proof {
            assert(tok@ =~= seq!['{']);
        }
        let items = match read_list(ts, '}', Ghost((fuel - 1) as nat)) {
            Ok(items) => items,
            Err(e) => {
                return Err(e);
            },
        };
        match build_map(&items) {
            Ok(entries) => Ok(MalType::HashMap(crate::types::MalHashMap { entries })),
            Err(e) => Err(e),
        }
    } else {
        proof {
            assert(tok@ != seq!['('] && tok@ != seq!['['] && tok@ != seq!['{']);
        }
        read_atom(&tok)
    }
}

/// Read forms up to the closer `end`, which is consumed.
#[verifier::loop_isolation(false)]
fn read_list(ts: &mut TokenState, end: char, Ghost(fuel): Ghost<nat>) -> (r: MalResult<
    Vec<MalType>,
>)
    requires
        old(ts).idx <= old(ts).tokens@.len(),
        fuel >= 2 * (old(ts).tokens@.len() - old(ts).idx) + 2,
    ensures
        final(ts).tokens == old(ts).tokens,
        final(ts).idx <= final(ts).tokens@.len(),
        ({
            let p = parse_items(old(ts).tokens.deep_view(), old(ts).idx as int, end, fuel);
            &&& match r {
                Ok(vs) => p.0 == Ok::<Seq<TermV>, ErrV>(crate::types::terms_view(vs@)),
                Err(e) => p.0 == Err::<Seq<TermV>, ErrV>(e@),
            }
            &&& (r is Ok ==> final(ts).idx == p.1 && old(ts).idx < final(ts).idx)
        }),
    decreases old(ts).tokens@.len() - old(ts).idx, 1int,
{
    let ghost tv = ts.tokens.deep_view();
    let ghost len = ts.tokens@.len() as int;
    let ghost full = parse_items(tv, old(ts).idx as int, end, fuel);
    proof {
        lemma_toks_view(ts.tokens);
        crate::types::lemma_terms_view(Seq::<MalType>::empty());
        if let Ok(vs) = parse_items(tv, old(ts).idx as int, end, fuel).0 {
            assert(Seq::<TermV>::empty() + vs =~= vs);
        }
    }
    let mut items: Vec<MalType> = Vec::new();
    let ghost mut f = fuel;
    loop
        invariant
            ts.tokens == old(ts).tokens,
            ts.idx <= ts.tokens@.len(),
            old(ts).idx <= ts.idx,
            f >= 2 * (len - ts.idx) + 2,
            f <= fuel,
            match parse_items(tv, ts.idx as int, end, f).0 {
                Ok(vs) => full.0 == Ok::<Seq<TermV>, ErrV>(crate::types::terms_view(items@) + vs)
                    && full.1 == parse_items(tv, ts.idx as int, end, f).1,
                Err(e) => full.0 == Err::<Seq<TermV>, ErrV>(e),
            },
        decreases ts.tokens@.len() - ts.idx,
    {
        let ghost idx0 = ts.idx as int;
        let tok = match ts.peek() {
            Ok(t) => t,
            Err(e) => {
                return Err(e);
            },
        };
        proof {
            assert(tok@ == tv[idx0]);
        }
        if tok.len() == 1 && (tok[0] == ')' || tok[0] == ']' || tok[0] == '}') {
            if tok[0] == end {
                proof {
                    assert(tok@ =~= seq![end]);
                    if let Ok(vs) = parse_items(tv, idx0, end, f).0 {
                        assert(crate::types::terms_view(items@) + vs =~= crate::types::terms_view(
                            items@,
                        ));
                    }
                }
                let consumed = ts.next();
                return Ok(items);
            } else {
                proof {
                    assert(tok@ =~= seq![tok@[0]]);
                    assert(tok@ == seq![')'] || tok@ == seq![']'] || tok@ == seq!['}']);
                    assert(tok@ != seq![end]);
                }
                return Err(
                    MalError::ParseError(
                        String::from_str("unbalanced delimiters: found the wrong closer"),
                    ),
                );
            }
        }
        proof {
            assert(tok@ != seq![')'] && tok@ != seq![']'] && tok@ != seq!['}']);
        }
        let v = match read_form(ts, Ghost((f - 1) as nat)) {
            Ok(v) => v,
            Err(e) => {
                return Err(e);
            },
        };
        let ghost pre = items@;
        items.push(v);
        proof {
            crate::types::lemma_terms_view_push(pre, items@.last());
            assert(items@ == pre.push(items@.last()));
            let q = parse_items(tv, ts.idx as int, end, (f - 1) as nat);
            if let Ok(vs) = q.0 {
                assert((crate::types::terms_view(pre) + seq![crate::types::term_view(
                    items@.last(),
                )]) + vs =~= crate::types::terms_view(pre) + (seq![crate::types::term_view(
                    items@.last(),
                )] + vs));
            }
            f = (f - 1) as nat;
        }
    }
}

/// Pair a map form's children into entries.
#[verifier::loop_isolation(false)]
fn build_map(items: &Vec<MalType>) -> (r: MalResult<Vec<crate::types::MapEntry>>)
    ensures
        ({
            let m = map_items(crate::types::terms_view(items@));
            match r {
                Ok(es) => m == Ok::<Seq<EntryV>, ErrV>(crate::types::entries_view(es@)),
                Err(e) => m == Err::<Seq<EntryV>, ErrV>(e@),
            }
        }),
{
    let ghost iv = crate::types::terms_view(items@);
    proof {
        crate::types::lemma_terms_view(items@);
        crate::types::lemma_entries_view(Seq::<crate::types::MapEntry>::empty());
        assert(iv.subrange(0, iv.len() as int) =~= iv);
        if let Ok(es) = map_pairs(iv) {
            assert(Seq::<EntryV>::empty() + es =~= es);
        }
    }
    if items.len() % 2 != 0 {
        return Err(
            MalError::ParseError(
                String::from_str("a map literal needs an even number of child forms"),
            ),
        );
    }
    let mut out: Vec<crate::types::MapEntry> = Vec::new();
    let mut j: usize = 0;
    while j < items.len() && j + 1 < items.len()
        invariant
            j <= items@.len(),
            match map_pairs(iv.subrange(j as int, iv.len() as int)) {
                Ok(es) => map_pairs(iv) == Ok::<Seq<EntryV>, ErrV>(
                    crate::types::entries_view(out@) + es,
                ),
                Err(e) => map_pairs(iv) == Err::<Seq<EntryV>, ErrV>(e),
            },
        decreases items@.len() - j,
    {
        let ghost rem = iv.subrange(j as int, iv.len() as int);
        proof {
            assert(rem[0] == crate::types::term_view(items@[j as int]));
            assert(rem[1] == crate::types::term_view(items@[j as int + 1]));
            assert(rem.subrange(2, rem.len() as int) =~= iv.subrange(
                j as int + 2,
                iv.len() as int,
            ));
        }
        let key = match items[j].get_string() {
            Some(k) => k,
            None => {
                return Err(
                    MalError::ParseError(
                        String::from_str("a map key must be a string or keyword"),
                    ),
                );
            },
        };
        let val = items[j + 1].deep_copy();
        let ghost pre = out@;
        out.push(crate::types::MapEntry { key, val });
        proof {
            crate::types::lemma_entries_view_push(pre, out@.last());
            assert(out@ == pre.push(out@.last()));
            let q = map_pairs(iv.subrange(j as int + 2, iv.len() as int));
            if let Ok(es) = q {
                let last = EntryV { key: out@.last().key@, val: crate::types::term_view(
                    out@.last().val,
                ) };
                assert((crate::types::entries_view(pre) + seq![last]) + es
                    =~= crate::types::entries_view(pre) + (seq![last] + es));
            }
        }
        j = j + 2;
    }
    proof {
        let rem = iv.subrange(j as int, iv.len() as int);
        assert(rem.len() < 2);
        if let Ok(es) = map_pairs(rem) {
            assert(crate::types::entries_view(out@) + es =~= crate::types::entries_view(out@));
        }
    }
    Ok(out)
}

/// Read the first form of an input line: tokenize, then parse. An input with
/// no tokens at all — empty or all whitespace — holds nothing to evaluate.
pub fn read_str(s: &str) -> (r: MalResult<MalType>)
    ensures
        crate::types::res_matches(r, read_spec(s@)),
{
    let chars = crate::types::string_to_chars(s);
    let tokens = tokenize(&chars);
    proof {
        lemma_toks_view(tokens);
    }
    if tokens.len() == 0 {
        return Err(MalError::Empty);
    }
    let ghost toks = tokens.deep_view();

    let mut ts = TokenState { tokens, idx: 0 };
    let r = read_form(&mut ts, Ghost((2 * toks.len() + 2) as nat));
    r
}

} // verus!
