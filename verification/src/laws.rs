//! Laws the core obeys, stated and proved over the abstract models: the
//! printer's escaping inverts the reader's unescaping, and reading back a
//! rendered literal term reproduces it.

use vstd::prelude::*;

use crate::printer::digit_char;
use crate::printer::digits_of;
use crate::printer::escape_char;
use crate::printer::escape_spec;
use crate::printer::int_chars;
use crate::printer::join_entries;
use crate::printer::join_items;
use crate::printer::render_spec;
use crate::reader::all_digits;
use crate::reader::atom_spec;
use crate::reader::bare_len;
use crate::reader::digits_val;
use crate::reader::ends_bare;
use crate::reader::is_single;
use crate::reader::is_ws;
use crate::reader::parse_form;
use crate::reader::parse_int_spec;
use crate::reader::read_spec;
use crate::reader::string_body_len;
use crate::reader::token_len;
use crate::reader::tokenize_spec;
use crate::reader::tokens_from;
use crate::reader::unescape_spec;
use crate::reader::unescape_walk;
use crate::reader::map_pairs;
use crate::reader::parse_items;
use crate::types::EntryV;
use crate::types::ErrV;
use crate::types::TermV;

verus! {

/// Walking the escaped form of `s` from position `i` decodes exactly `s`,
/// then continues past it.
proof fn lemma_walk_escaped(u: Seq<char>, i: int, s: Seq<char>)
    requires
        0 <= i,
        i + escape_spec(s).len() <= u.len(),
        u.subrange(i, i + escape_spec(s).len() as int) == escape_spec(s),
    ensures
        unescape_walk(u, i, false) == match unescape_walk(u, i + escape_spec(s).len() as int, false) {
            Err(e) => Err::<(Seq<char>, int), ErrV>(e),
            Ok(p) => Ok::<(Seq<char>, int), ErrV>((s + p.0, p.1)),
        },
    decreases s.len(),
{
    let e = escape_spec(s);
    if s.len() == 0 {
        assert(e =~= Seq::<char>::empty());
        match unescape_walk(u, i, false) {
            Err(_) => {
            },
            Ok(p) => {
                assert(s + p.0 =~= p.0);
            },
        }
    } else {
        let c = s[0];
        let rest = s.subrange(1, s.len() as int);
        let ec = escape_char(c);
        assert(s =~= seq![c] + rest);
        assert(e == ec + escape_spec(rest));
        let j = i + ec.len();
        assert forall|k: int| 0 <= k < escape_spec(rest).len() implies u.subrange(
            j,
            j + escape_spec(rest).len() as int,
        )[k] == escape_spec(rest)[k] by {
            assert(u[j + k] == e[ec.len() + k]);
        }
        assert(u.subrange(j, j + escape_spec(rest).len() as int) =~= escape_spec(rest));
        lemma_walk_escaped(u, j, rest);
        assert(u[i] == e[0]);
        assert(j + escape_spec(rest).len() == i + e.len());
        if c == '\\' || c == '\n' || c == '"' {
            assert(u[i] == '\\');
            assert(u[i + 1] == e[1]);
            assert(j == i + 2);
            assert(unescape_walk(u, i, false) == unescape_walk(u, i + 1, true));
            // the escape pair decodes to the one character
            assert(unescape_walk(u, i + 1, true) == match unescape_walk(u, j, false) {
                Err(e0) => Err::<(Seq<char>, int), ErrV>(e0),
                Ok(p) => Ok::<(Seq<char>, int), ErrV>((seq![c] + p.0, p.1)),
            });
            match unescape_walk(u, i + e.len() as int, false) {
                Err(_) => {
                },
                Ok(q) => {
                    assert(unescape_walk(u, j, false) == Ok::<(Seq<char>, int), ErrV>(
                        (rest + q.0, q.1),
                    ));
                    assert(seq![c] + (rest + q.0) =~= s + q.0);
                },
            }
        } else {
            assert(u[i] == c);
            assert(c != '\\' && c != '"');
            assert(j == i + 1);
            assert(unescape_walk(u, i, false) == match unescape_walk(u, j, false) {
                Err(e0) => Err::<(Seq<char>, int), ErrV>(e0),
                Ok(p) => Ok::<(Seq<char>, int), ErrV>((seq![c] + p.0, p.1)),
            });
            match unescape_walk(u, i + e.len() as int, false) {
                Err(_) => {
                },
                Ok(q) => {
                    assert(unescape_walk(u, j, false) == Ok::<(Seq<char>, int), ErrV>(
                        (rest + q.0, q.1),
                    ));
                    assert(seq![c] + (rest + q.0) =~= s + q.0);
                },
            }
        }
    }
}

/// String escaping and unescaping invert: rendering any string's characters
/// readably — quotes around the escaped content — and undoing the escapes
/// yields the characters back, for every string. In particular escaping is
/// injective on all strings.
pub proof fn lemma_escape_unescape(s: Seq<char>)
    ensures
        unescape_spec(seq!['"'] + escape_spec(s) + seq!['"']) == Ok::<Seq<char>, ErrV>(s),
{
    let e = escape_spec(s);
    let u = seq!['"'] + e + seq!['"'];
    assert(u.len() == e.len() + 2);
    assert(u[0] == '"');
    assert(u[u.len() - 1] == '"');
    assert(u.subrange(1, 1 + e.len() as int) =~= e);
    lemma_walk_escaped(u, 1, s);
    let past = 1 + e.len() as int;
    assert(u[past] == '"');
    assert(unescape_walk(u, past + 1, false) == Ok::<(Seq<char>, int), ErrV>(
        (Seq::<char>::empty(), 0int),
    ));
    assert(unescape_walk(u, past, false) == Ok::<(Seq<char>, int), ErrV>(
        (Seq::<char>::empty(), 1int),
    ));
    assert(s + Seq::<char>::empty() =~= s);
    assert(unescape_walk(u, 1, false) == Ok::<(Seq<char>, int), ErrV>((s, 1int)));
    assert(unescape_walk(u, 0, false) == Ok::<(Seq<char>, int), ErrV>((s, 2int)));
}

/// The escaped body of a string, followed by the closing quote, scans as one
/// string token.
proof fn lemma_string_scan(u: Seq<char>, i: int, s: Seq<char>)
    requires
        0 <= i,
        i + escape_spec(s).len() < u.len(),
        u.subrange(i, i + escape_spec(s).len() as int) == escape_spec(s),
        u[i + escape_spec(s).len() as int] == '"',
    ensures
        string_body_len(u, i) == escape_spec(s).len() + 1,
    decreases s.len(),
{
    let e = escape_spec(s);
    if s.len() == 0 {
        assert(e =~= Seq::<char>::empty());
        assert(u[i] == '"');
    } else {
        let c = s[0];
        let rest = s.subrange(1, s.len() as int);
        let ec = escape_char(c);
        assert(s =~= seq![c] + rest);
        assert(e == ec + escape_spec(rest));
        let j = i + ec.len();
        assert forall|k: int| 0 <= k < escape_spec(rest).len() implies u.subrange(
            j,
            j + escape_spec(rest).len() as int,
        )[k] == escape_spec(rest)[k] by {
            assert(u[j + k] == e[ec.len() + k]);
        }
        assert(u.subrange(j, j + escape_spec(rest).len() as int) =~= escape_spec(rest));
        lemma_string_scan(u, j, rest);
        assert(u[i] == e[0]);
        if c == '\\' || c == '\n' || c == '"' {
            assert(u[i] == '\\');
            assert(u[i + 1] == e[1]);
        } else {
            assert(u[i] == c);
            assert(c != '\\' && c != '"');
        }
    }
}

/// Every digit of a decimal rendering is a digit character.
proof fn lemma_digits_of_digits(m: nat)
    ensures
        all_digits(digits_of(m)),
        digits_of(m).len() > 0,
        48 <= digits_of(m)[0] as u32 <= 57,
    decreases m,
{
    if m < 10 {
        assert(48 <= digit_char(m) as u32 <= 57);
    } else {
        lemma_digits_of_digits(m / 10);
        let a = digits_of(m / 10);
        let whole = a + seq![digit_char(m % 10)];
        assert(48 <= digit_char(m % 10) as u32 <= 57);
        assert forall|k: int| 0 <= k < whole.len() implies 48 <= #[trigger] whole[k] as u32
            <= 57 by {
            if k < a.len() {
                assert(whole[k] == a[k]);
            }
        }
    }
}

/// Reading back a decimal rendering recovers the number.
proof fn lemma_digits_roundtrip(m: nat)
    ensures
        digits_val(digits_of(m)) == m,
    decreases m,
{
    if m < 10 {
        assert(digits_val(Seq::<char>::empty()) == 0);
        assert(digits_val(digits_of(m)) == digit_char(m) as u32 - 48) by {
            assert(digits_val(Seq::<char>::empty()) == 0);
            assert(digits_of(m) =~= seq![digit_char(m)]);
            assert(seq![digit_char(m)].drop_last() =~= Seq::<char>::empty());
            assert(seq![digit_char(m)].last() == digit_char(m));
        }
        assert(digit_char(m) as u32 - 48 == m);
    } else {
        lemma_digits_roundtrip(m / 10);
        let a = digits_of(m / 10);
        let whole = a + seq![digit_char(m % 10)];
        assert(whole.drop_last() =~= a);
        assert(whole.last() == digit_char(m % 10));
        assert(digit_char(m % 10) as u32 - 48 == m % 10);
        assert(digits_val(whole) == digits_val(a) * 10 + (m % 10));
        assert((m / 10) * 10 + (m % 10) == m);
    }
}

/// No digit character ends a bare token, nor does the minus sign.
proof fn lemma_digits_bare(m: nat)
    ensures
        forall|k: int|
            0 <= k < digits_of(m).len() ==> !ends_bare(#[trigger] digits_of(m)[k]) && !is_ws(
                digits_of(m)[k],
            ) && !is_single(digits_of(m)[k]) && digits_of(m)[k] != '"' && digits_of(m)[k] != ';',
{
    lemma_digits_of_digits(m);
    assert forall|k: int|
        0 <= k < digits_of(m).len() implies !ends_bare(#[trigger] digits_of(m)[k]) && !is_ws(
        digits_of(m)[k],
    ) && !is_single(digits_of(m)[k]) && digits_of(m)[k] != '"' && digits_of(m)[k] != ';' by {
        let c = digits_of(m)[k];
        assert(48 <= c as u32 <= 57);
        assert(c != ' ' && c != '\t' && c != '\n' && c != '\r' && c != '\u{b}' && c != '\u{c}' && c
            != ',') by {
            assert((' ' as u32) == 32 && ('\t' as u32) == 9 && ('\n' as u32) == 10 && ('\r' as u32)
                == 13 && ('\u{b}' as u32) == 11 && ('\u{c}' as u32) == 12 && (',' as u32) == 44);
        }
        assert(c != '(' && c != ')' && c != '[' && c != ']' && c != '{' && c != '}' && c != '\'' &&
            c != '`' && c != '~' && c != '^' && c != '@' && c != '"' && c != ';') by {
            assert(('(' as u32) == 40 && (')' as u32) == 41 && ('[' as u32) == 91 && (']' as u32)
                == 93 && ('{' as u32) == 123 && ('}' as u32) == 125 && ('\'' as u32) == 39 && (
            '`' as u32) == 96 && ('~' as u32) == 126 && ('^' as u32) == 94 && ('@' as u32) == 64 && (
            '"' as u32) == 34 && (';' as u32) == 59);
        }
    }
}

/// Reading back the decimal rendering of an integer recovers it.
proof fn lemma_int_roundtrip(n: i32)
    ensures
        parse_int_spec(int_chars(n as int)) == Some(n),
{
    if n >= 0 {
        let t = digits_of(n as nat);
        lemma_digits_of_digits(n as nat);
        lemma_digits_roundtrip(n as nat);
        assert(t[0] != '+' && t[0] != '-') by {
            assert(('+' as u32) == 43 && ('-' as u32) == 45);
            assert(48 <= t[0] as u32 <= 57);
        }
        assert(parse_int_spec(t) == Some(n));
    } else {
        let m = (-(n as int)) as nat;
        let t = seq!['-'] + digits_of(m);
        lemma_digits_of_digits(m);
        lemma_digits_roundtrip(m);
        assert(t[0] == '-');
        assert(t.subrange(1, t.len() as int) =~= digits_of(m));
        assert(parse_int_spec(t) == Some(n));
    }
}

/// A literal atom term, rendered readably and read back, is reproduced. This
/// covers every scalar: `nil`, booleans, integers, strings (any contents),
/// and those keywords and symbols whose names survive the token grammar — no
/// character of the name may end a bare token, and a symbol must not begin
/// like a number, string, keyword, comment or delimiter, nor spell a literal.
pub open spec fn atom_roundtrips(t: TermV) -> bool {
    match t {
        TermV::Nil => true,
        TermV::Bool(b) => true,
        TermV::Int(i) => true,
        TermV::Str(s) => true,
        TermV::Keyword(k) => forall|i: int| 0 <= i < k.len() ==> !ends_bare(#[trigger] k[i]),
        TermV::Symbol(s) => {
            &&& s.len() > 0
            &&& forall|i: int| 0 <= i < s.len() ==> !ends_bare(#[trigger] s[i])
            &&& !is_single(s[0])
            &&& s[0] != '"'
            &&& s[0] != ';'
            &&& s[0] != ':'
            &&& parse_int_spec(s) is None
            &&& s != seq!['n', 'i', 'l']
            &&& s != seq!['t', 'r', 'u', 'e']
            &&& s != seq!['f', 'a', 'l', 's', 'e']
        },
        _ => false,
    }
}

/// Shape facts about a literal atom's rendering: it classifies back to the
/// same term, and it is one well-formed token — a quoted string, or a bare
/// run that no character terminates.
proof fn lemma_atom_facts(t: TermV)
    requires
        atom_roundtrips(t),
    ensures
        atom_spec(render_spec(t, true)) == Ok::<TermV, ErrV>(t),
        render_spec(t, true).len() > 0,
        !is_ws(render_spec(t, true)[0]),
        !is_single(render_spec(t, true)[0]),
        render_spec(t, true)[0] != ';',
        t matches TermV::Str(s) ==> render_spec(t, true) == seq!['"'] + escape_spec(s)
            + seq!['"'] && render_spec(t, true)[0] == '"',
        !(t is Str) ==> render_spec(t, true)[0] != '"' && forall|k: int|
            0 <= k < render_spec(t, true).len() ==> !ends_bare(#[trigger] render_spec(t, true)[k]),
    decreases t,
{
    let u = render_spec(t, true);
    match t {
        TermV::Nil => {
            assert(u == seq!['n', 'i', 'l']);
            lemma_word_facts(u);
            assert(atom_spec(u) == Ok::<TermV, ErrV>(t));
        },
        TermV::Bool(b) => {
            lemma_word_facts(u);
            if b {
                assert(u == seq!['t', 'r', 'u', 'e']);
                assert(u != seq!['n', 'i', 'l']);
                assert(atom_spec(u) == Ok::<TermV, ErrV>(t));
            } else {
                assert(u == seq!['f', 'a', 'l', 's', 'e']);
                assert(atom_spec(u) == Ok::<TermV, ErrV>(t));
            }
        },
        TermV::Int(i) => {
            lemma_int_roundtrip(i);
            lemma_digits_bare((if i < 0 {
                -(i as int)
            } else {
                i as int
            }) as nat);
            if i < 0 {
                let m = (-(i as int)) as nat;
                assert(u == seq!['-'] + digits_of(m));
                assert forall|k: int| 0 <= k < u.len() implies !ends_bare(#[trigger] u[k]) by {
                    if k == 0 {
                        assert(u[0] == '-');
                        assert(('-' as u32) == 45);
                    } else {
                        assert(u[k] == digits_of(m)[k - 1]);
                    }
                }
                assert(!is_ws(u[0]) && !is_single(u[0]) && u[0] != '"' && u[0] != ';') by {
                    assert(('-' as u32) == 45);
                }
                assert(atom_spec(u) == Ok::<TermV, ErrV>(t));
            } else {
                assert(u == digits_of(i as nat));
                assert(atom_spec(u) == Ok::<TermV, ErrV>(t));
            }
        },
        TermV::Str(s) => {
            lemma_escape_unescape(s);
            let tok = seq!['"'] + escape_spec(s) + seq!['"'];
            assert(u == tok);
            assert(tok[0] == '"');
            lemma_quoted_not_numeric(tok);
            assert(tok != seq!['n', 'i', 'l'] && tok != seq!['t', 'r', 'u', 'e'] && tok != seq![
                'f',
                'a',
                'l',
                's',
                'e',
            ]) by {
                assert(('n' as u32) == 110 && ('t' as u32) == 116 && ('f' as u32) == 102 && (
                '"' as u32) == 34);
            }
            assert(!is_ws(u[0]) && !is_single(u[0]) && u[0] != ';') by {
                assert(('"' as u32) == 34);
            }
            assert(atom_spec(tok) == Ok::<TermV, ErrV>(t));
        },
        TermV::Keyword(k) => {
            let tok = seq![':'] + k;
            assert(u == tok);
            assert(tok[0] == ':');
            assert forall|i: int| 0 <= i < tok.len() implies !ends_bare(#[trigger] tok[i]) by {
                if i == 0 {
                    assert((':' as u32) == 58);
                } else {
                    assert(tok[i] == k[i - 1]);
                }
            }
            assert(!is_ws(tok[0]) && !is_single(tok[0]) && tok[0] != '"' && tok[0] != ';') by {
                assert((':' as u32) == 58);
            }
            lemma_colon_not_numeric(tok);
            assert(tok != seq!['n', 'i', 'l'] && tok != seq!['t', 'r', 'u', 'e'] && tok != seq![
                'f',
                'a',
                'l',
                's',
                'e',
            ]) by {
                assert(('n' as u32) == 110 && ('t' as u32) == 116 && ('f' as u32) == 102 && (
                ':' as u32) == 58);
            }
            assert(tok.subrange(1, tok.len() as int) =~= k);
            assert(atom_spec(tok) == Ok::<TermV, ErrV>(t));
        },
        TermV::Symbol(s) => {
            assert(u == s);
            assert(atom_spec(s) == Ok::<TermV, ErrV>(t));
        },
        _ => {
        },
    }
}

/// A token that opens with a quote never parses as a number.
proof fn lemma_quoted_not_numeric(tok: Seq<char>)
    requires
        tok.len() > 0,
        tok[0] == '"',
    ensures
        parse_int_spec(tok) is None,
{
    assert(('"' as u32) == 34 && ('+' as u32) == 43 && ('-' as u32) == 45);
    assert(!(48 <= tok[0] as u32 <= 57));
    assert(!all_digits(tok));
}

/// A token that opens with a colon never parses as a number.
proof fn lemma_colon_not_numeric(tok: Seq<char>)
    requires
        tok.len() > 0,
        tok[0] == ':',
    ensures
        parse_int_spec(tok) is None,
{
    assert((':' as u32) == 58 && ('+' as u32) == 43 && ('-' as u32) == 45);
    assert(!(48 <= tok[0] as u32 <= 57));
    assert(!all_digits(tok));
}

/// The three bare literal words are single well-formed bare tokens that do
/// not read as numbers.
proof fn lemma_word_facts(x: Seq<char>)
    requires
        x == seq!['n', 'i', 'l'] || x == seq!['t', 'r', 'u', 'e'] || x == seq![
            'f',
            'a',
            'l',
            's',
            'e',
        ],
    ensures
        parse_int_spec(x) is None,
        forall|k: int| 0 <= k < x.len() ==> !ends_bare(#[trigger] x[k]),
        !is_ws(x[0]),
        !is_single(x[0]),
        x[0] != '"',
        x[0] != ';',
{
    assert(('n' as u32) == 110 && ('i' as u32) == 105 && ('l' as u32) == 108 && ('t' as u32) == 116
        && ('r' as u32) == 114 && ('u' as u32) == 117 && ('e' as u32) == 101 && ('f' as u32) == 102
        && ('a' as u32) == 97 && ('s' as u32) == 115);
    assert(('+' as u32) == 43 && ('-' as u32) == 45);
    assert forall|k: int| 0 <= k < x.len() implies !ends_bare(#[trigger] x[k]) by {
        assert(97 <= x[k] as u32 <= 126);
        assert(!is_ws(x[k]));
    }
    assert(!is_ws(x[0]) && !is_single(x[0]) && x[0] != '"' && x[0] != ';');
    assert(!(48 <= x[0] as u32 <= 57));
    assert(!all_digits(x));
    assert(x.len() > 1 && !(48 <= x.subrange(1, x.len() as int)[0] as u32 <= 57));
    assert(!all_digits(x.subrange(1, x.len() as int)));
}

/// Two one-character tokens with different characters differ.
proof fn lemma_single_tok_ne(a: char, b: char)
    requires
        a != b,
    ensures
        seq![a] != seq![b],
{
    assert(seq![a][0] == a);
    assert(seq![b][0] == b);
}

/// A token differs from a one-character token it does not begin with.
proof fn lemma_tok_ne(r: Seq<char>, c: char)
    requires
        r.len() > 0,
        r[0] != c,
    ensures
        r != seq![c],
{
    assert(seq![c][0] == c);
    if r == seq![c] {
        assert(r[0] == c);
    }
}

/// The position just past a token must end it: the end of the input, or a
/// character no bare token runs into.
pub open spec fn token_boundary(u: Seq<char>, p: int) -> bool {
    p == u.len() || ends_bare(u[p])
}

/// Terms whose readable rendering reads back exactly: literal atoms that
/// survive the token grammar, lists and vectors of such terms, and the empty
/// map. A non-empty map cannot round-trip: its keys print bare and re-read as
/// symbols, which the map grammar rejects — `{"a" 1}` prints as `{a 1}`,
/// whose key is no longer textual. Functions have no readable form at all.
pub open spec fn term_roundtrips(t: TermV) -> bool
    decreases t, 1int,
{
    match t {
        TermV::List(l) => items_roundtrip(l),
        TermV::Vector(l) => items_roundtrip(l),
        TermV::HashMap(es) => es.len() == 0,
        TermV::Fun(b) => false,
        _ => atom_roundtrips(t),
    }
}

/// Every term of the sequence round-trips.
pub open spec fn items_roundtrip(l: Seq<TermV>) -> bool
    decreases l, 0int,
{
    l.len() == 0 || (term_roundtrips(l[0]) && items_roundtrip(l.subrange(1, l.len() as int)))
}

/// The tokens a term's readable rendering splits into.
pub open spec fn term_tokens(t: TermV) -> Seq<Seq<char>>
    decreases t, 1int,
{
    match t {
        TermV::List(l) => seq![seq!['(']] + items_tokens(l) + seq![seq![')']],
        TermV::Vector(l) => seq![seq!['[']] + items_tokens(l) + seq![seq![']']],
        TermV::HashMap(es) => seq![seq!['{'], seq!['}']],
        _ => seq![render_spec(t, true)],
    }
}

/// The tokens of a rendered term sequence.
pub open spec fn items_tokens(l: Seq<TermV>) -> Seq<Seq<char>>
    decreases l, 0int,
{
    if l.len() == 0 {
        Seq::empty()
    } else {
        term_tokens(l[0]) + items_tokens(l.subrange(1, l.len() as int))
    }
}

/// A term's rendering is at least one token.
proof fn lemma_term_tokens_len(t: TermV)
    ensures
        term_tokens(t).len() >= 1,
{
}

/// A round-tripping term's first token never closes a form.
proof fn lemma_first_token_not_closer(t: TermV)
    requires
        term_roundtrips(t),
    ensures
        term_tokens(t)[0] != seq![')'],
        term_tokens(t)[0] != seq![']'],
        term_tokens(t)[0] != seq!['}'],
        term_tokens(t)[0] != seq!['('] <==> !(t is List),
        term_tokens(t)[0] != seq!['['] <==> !(t is Vector),
        term_tokens(t)[0] != seq!['{'] <==> !(t is HashMap),
    decreases t,
{
    match t {
        TermV::List(l) => {
            assert(term_tokens(t)[0] == seq!['(']);
            lemma_single_tok_ne('(', ')');
            lemma_single_tok_ne('(', ']');
            lemma_single_tok_ne('(', '}');
            lemma_single_tok_ne('(', '[');
            lemma_single_tok_ne('(', '{');
        },
        TermV::Vector(l) => {
            assert(term_tokens(t)[0] == seq!['[']);
            lemma_single_tok_ne('[', ')');
            lemma_single_tok_ne('[', ']');
            lemma_single_tok_ne('[', '}');
            lemma_single_tok_ne('[', '(');
            lemma_single_tok_ne('[', '{');
        },
        TermV::HashMap(es) => {
            assert(term_tokens(t)[0] == seq!['{']);
            lemma_single_tok_ne('{', ')');
            lemma_single_tok_ne('{', ']');
            lemma_single_tok_ne('{', '}');
            lemma_single_tok_ne('{', '(');
            lemma_single_tok_ne('{', '[');
        },
        _ => {
            lemma_atom_facts(t);
            let r = render_spec(t, true);
            assert(term_tokens(t)[0] == r);
            if t is Str {
                assert(r[0] == '"');
            } else {
                assert(!is_single(r[0]));
            }
            lemma_tok_ne(r, ')');
            lemma_tok_ne(r, ']');
            lemma_tok_ne(r, '}');
            lemma_tok_ne(r, '(');
            lemma_tok_ne(r, '[');
            lemma_tok_ne(r, '{');
        },
    }
}

/// A range free of terminators, ended by a boundary, scans as one bare run.
proof fn lemma_bare_scan_range(u: Seq<char>, j: int, stop: int)
    requires
        0 <= j <= stop <= u.len(),
        forall|k: int| j <= k < stop ==> !ends_bare(#[trigger] u[k]),
        token_boundary(u, stop),
    ensures
        bare_len(u, j) == stop - j,
    decreases stop - j,
{
    if j < stop {
        lemma_bare_scan_range(u, j + 1, stop);
    }
}

/// One rendered atom, sitting at a token boundary, is one token of the input.
proof fn lemma_atom_tokens_at(u: Seq<char>, i: int, t: TermV)
    requires
        atom_roundtrips(t),
        0 <= i,
        i + render_spec(t, true).len() <= u.len(),
        u.subrange(i, i + render_spec(t, true).len() as int) == render_spec(t, true),
        token_boundary(u, i + render_spec(t, true).len() as int),
    ensures
        tokens_from(u, i) == seq![render_spec(t, true)] + tokens_from(
            u,
            i + render_spec(t, true).len() as int,
        ),
{
    lemma_atom_facts(t);
    let r = render_spec(t, true);
    let p = i + r.len() as int;
    assert(u[i] == r[0]);
    if let TermV::Str(s) = t {
        let e = escape_spec(s);
        assert(r == seq!['"'] + e + seq!['"']);
        assert(u[i] == '"');
        assert forall|k: int| 0 <= k < e.len() implies u.subrange(i + 1, i + 1 + e.len() as int)[k]
            == e[k] by {
            assert(u[i + 1 + k] == r[1 + k]);
        }
        assert(u.subrange(i + 1, i + 1 + e.len() as int) =~= e);
        assert(u[p - 1] == r[r.len() - 1]);
        assert(u[i + 1 + e.len() as int] == '"');
        lemma_string_scan(u, i + 1, s);
        assert(token_len(u, i) == r.len());
    } else {
        assert(r[0] != '"');
        assert forall|k: int| i <= k < p implies !ends_bare(#[trigger] u[k]) by {
            assert(u[k] == r[k - i]);
        }
        lemma_bare_scan_range(u, i + 1, p);
        assert(u[i] != '~') by {
            assert(('~' as u32) == 126);
        }
        assert(u[i] != ';' && !is_single(u[i]) && u[i] != '"');
        assert(token_len(u, i) == r.len());
    }
    assert(!is_ws(u[i]));
    assert(u.subrange(i, p) == r);
    assert(tokens_from(u, i) =~= seq![r] + tokens_from(u, p));
}

/// The rendering of a round-tripping term, sitting at a token boundary,
/// contributes exactly its tokens.
proof fn lemma_term_tokens_at(u: Seq<char>, i: int, t: TermV)
    requires
        term_roundtrips(t),
        0 <= i,
        i + render_spec(t, true).len() <= u.len(),
        u.subrange(i, i + render_spec(t, true).len() as int) == render_spec(t, true),
        token_boundary(u, i + render_spec(t, true).len() as int),
    ensures
        tokens_from(u, i) == term_tokens(t) + tokens_from(
            u,
            i + render_spec(t, true).len() as int,
        ),
    decreases t, 1int,
{
    let r = render_spec(t, true);
    let p = i + r.len() as int;
    match t {
        TermV::List(l) => {
            lemma_container_tokens_at(u, i, t);
        },
        TermV::Vector(l) => {
            lemma_container_tokens_at(u, i, t);
        },
        TermV::HashMap(es) => {
            lemma_container_tokens_at(u, i, t);
        },
        _ => {
            lemma_atom_tokens_at(u, i, t);
            assert(term_tokens(t) == seq![r]);
        },
    }
}

/// The bracketed rendering of a container term: opener token, the children's
/// tokens, closer token.
proof fn lemma_container_tokens_at(u: Seq<char>, i: int, t: TermV)
    requires
        term_roundtrips(t),
        t is List || t is Vector || t is HashMap,
        0 <= i,
        i + render_spec(t, true).len() <= u.len(),
        u.subrange(i, i + render_spec(t, true).len() as int) == render_spec(t, true),
        token_boundary(u, i + render_spec(t, true).len() as int),
    ensures
        tokens_from(u, i) == term_tokens(t) + tokens_from(
            u,
            i + render_spec(t, true).len() as int,
        ),
    decreases t, 0int,
{
    let r = render_spec(t, true);
    let p = i + r.len() as int;
    let (opener, closer, body) = match t {
        TermV::List(l) => ('(', ')', join_items(l, true)),
        TermV::Vector(l) => ('[', ']', join_items(l, true)),
        _ => ('{', '}', join_entries(t->HashMap_0, true)),
    };
    if t is HashMap {
        assert(t->HashMap_0.len() == 0);
        assert(body =~= Seq::<char>::empty());
    }
    assert(r == seq![opener] + body + seq![closer]);
    assert(u[i] == r[0]);
    assert(r[0] == opener);
    assert(is_single(u[i]) && !is_ws(u[i]) && u[i] != '~');
    assert(token_len(u, i) == 1);
    assert(u.subrange(i, i + 1) =~= seq![opener]);
    assert(tokens_from(u, i) == seq![seq![opener]] + tokens_from(u, i + 1));
    let q = i + 1 + body.len() as int;
    assert forall|k: int| 0 <= k < body.len() implies u.subrange(i + 1, q)[k] == body[k] by {
        assert(u[i + 1 + k] == r[1 + k]);
    }
    assert(u.subrange(i + 1, q) =~= body);
    assert(u[q] == r[r.len() - 1]);
    assert(u[q] == closer);
    assert(ends_bare(closer));
    // the children's tokens
    match t {
        TermV::List(l) => {
            lemma_items_tokens_at(u, i + 1, l);
        },
        TermV::Vector(l) => {
            lemma_items_tokens_at(u, i + 1, l);
        },
        _ => {
            assert(tokens_from(u, i + 1) == items_tokens(Seq::<TermV>::empty()) + tokens_from(
                u,
                q,
            )) by {
                assert(items_tokens(Seq::<TermV>::empty()) =~= Seq::<Seq<char>>::empty());
                assert(i + 1 == q);
                assert(Seq::<Seq<char>>::empty() + tokens_from(u, q) =~= tokens_from(u, q));
            }
        },
    }
    let its = match t {
        TermV::List(l) => items_tokens(l),
        TermV::Vector(l) => items_tokens(l),
        _ => items_tokens(Seq::<TermV>::empty()),
    };
    assert(tokens_from(u, i + 1) == its + tokens_from(u, q));
    // the closer token
    assert(is_single(u[q]) && !is_ws(u[q]) && u[q] != '~') by {
        assert(('~' as u32) == 126 && (')' as u32) == 41 && (']' as u32) == 93 && ('}' as u32)
            == 125);
    }
    assert(token_len(u, q) == 1);
    assert(u.subrange(q, q + 1) =~= seq![closer]);
    assert(tokens_from(u, q) == seq![seq![closer]] + tokens_from(u, p));
    if t is HashMap {
        assert(term_tokens(t) =~= seq![seq![opener]] + its + seq![seq![closer]]);
    } else {
        assert(term_tokens(t) == seq![seq![opener]] + its + seq![seq![closer]]);
    }
    assert(seq![seq![opener]] + (its + (seq![seq![closer]] + tokens_from(u, p))) =~= (seq![
        seq![opener],
    ] + its + seq![seq![closer]]) + tokens_from(u, p));
}

/// The space-joined renderings of a term sequence, ended by a closer,
/// contribute exactly the sequence's tokens.
proof fn lemma_items_tokens_at(u: Seq<char>, i: int, l: Seq<TermV>)
    requires
        items_roundtrip(l),
        0 <= i,
        i + join_items(l, true).len() < u.len(),
        u.subrange(i, i + join_items(l, true).len() as int) == join_items(l, true),
        ends_bare(u[i + join_items(l, true).len() as int]),
    ensures
        tokens_from(u, i) == items_tokens(l) + tokens_from(
            u,
            i + join_items(l, true).len() as int,
        ),
    decreases l, 2int,
{
    let body = join_items(l, true);
    let p = i + body.len() as int;
    if l.len() == 0 {
        assert(body =~= Seq::<char>::empty());
        assert(items_tokens(l) =~= Seq::<Seq<char>>::empty());
        assert(items_tokens(l) + tokens_from(u, p) =~= tokens_from(u, i));
    } else if l.len() == 1 {
        assert(body == render_spec(l[0], true));
        lemma_term_tokens_at(u, i, l[0]);
        assert(l.subrange(1, 1) =~= Seq::<TermV>::empty());
        assert(items_tokens(l) == term_tokens(l[0]) + items_tokens(Seq::<TermV>::empty()));
        assert(items_tokens(Seq::<TermV>::empty()) =~= Seq::<Seq<char>>::empty());
        assert(term_tokens(l[0]) + Seq::<Seq<char>>::empty() =~= term_tokens(l[0]));
    } else {
        let r0 = render_spec(l[0], true);
        let rest = l.subrange(1, l.len() as int);
        assert(body == r0 + seq![' '] + join_items(rest, true));
        assert forall|k: int| 0 <= k < r0.len() implies u.subrange(i, i + r0.len() as int)[k]
            == r0[k] by {
            assert(u[i + k] == body[k]);
        }
        assert(u.subrange(i, i + r0.len() as int) =~= r0);
        let m = i + r0.len() as int;
        assert(u[m] == body[r0.len() as int]);
        assert(u[m] == ' ');
        assert(ends_bare(' ') && is_ws(' '));
        lemma_term_tokens_at(u, i, l[0]);
        assert(tokens_from(u, m) == tokens_from(u, m + 1));
        let jr = join_items(rest, true);
        let sub2 = u.subrange(m + 1, m + 1 + jr.len() as int);
        assert forall|k: int| 0 <= k < jr.len() implies sub2[k] == jr[k] by {
            assert(u[m + 1 + k] == body[r0.len() + 1 + k]);
        }
        assert(u.subrange(m + 1, m + 1 + jr.len() as int) =~= jr);
        assert(m + 1 + jr.len() == p);
        lemma_items_tokens_at(u, m + 1, rest);
        assert(items_tokens(l) == term_tokens(l[0]) + items_tokens(rest));
        assert(term_tokens(l[0]) + (items_tokens(rest) + tokens_from(u, p)) =~= (term_tokens(l[0])
            + items_tokens(rest)) + tokens_from(u, p));
    }
}

/// Parsing from a position whose tokens are one rendered term yields that
/// term and stops just past it.
proof fn lemma_parse_at(toks: Seq<Seq<char>>, i: int, t: TermV, fuel: nat)
    requires
        term_roundtrips(t),
        0 <= i,
        i + term_tokens(t).len() <= toks.len(),
        toks.subrange(i, i + term_tokens(t).len() as int) == term_tokens(t),
        fuel >= 2 * (toks.len() - i) + 1,
    ensures
        parse_form(toks, i, fuel) == (Ok::<TermV, ErrV>(t), i + term_tokens(t).len() as int),
    decreases t, 1int,
{
    let tt = term_tokens(t);
    assert(toks[i] == tt[0]);
    match t {
        TermV::List(l) => {
            assert(toks[i] == seq!['(']);
            let its = items_tokens(l);
            assert forall|k: int| 0 <= k < its.len() implies toks.subrange(
                i + 1,
                i + 1 + its.len() as int,
            )[k] == its[k] by {
                assert(toks[i + 1 + k] == tt[1 + k]);
            }
            assert(toks.subrange(i + 1, i + 1 + its.len() as int) =~= its);
            assert(toks[i + 1 + its.len() as int] == tt[tt.len() - 1]);
            assert(toks[i + 1 + its.len() as int] == seq![')']);
            lemma_parse_items_at(toks, i + 1, l, ')', (fuel - 1) as nat);
        },
        TermV::Vector(l) => {
            assert(toks[i] == seq!['[']);
            let its = items_tokens(l);
            assert forall|k: int| 0 <= k < its.len() implies toks.subrange(
                i + 1,
                i + 1 + its.len() as int,
            )[k] == its[k] by {
                assert(toks[i + 1 + k] == tt[1 + k]);
            }
            assert(toks.subrange(i + 1, i + 1 + its.len() as int) =~= its);
            assert(toks[i + 1 + its.len() as int] == tt[tt.len() - 1]);
            assert(toks[i + 1 + its.len() as int] == seq![']']);
            lemma_single_tok_ne('(', '[');
            lemma_parse_items_at(toks, i + 1, l, ']', (fuel - 1) as nat);
        },
        TermV::HashMap(es) => {
            assert(toks[i] == seq!['{']);
            assert(toks[i + 1] == tt[1]);
            assert(toks[i + 1] == seq!['}']);
            lemma_single_tok_ne('(', '{');
            lemma_single_tok_ne('[', '{');
            lemma_single_tok_ne(')', '}');
            lemma_single_tok_ne(']', '}');
            assert(parse_items(toks, i + 1, '}', (fuel - 1) as nat) == (
                Ok::<Seq<TermV>, ErrV>(Seq::empty()),
                i + 2,
            ));
            assert(map_pairs(Seq::<TermV>::empty()) == Ok::<Seq<EntryV>, ErrV>(Seq::empty()));
            assert(es =~= Seq::<EntryV>::empty());
        },
        _ => {
            lemma_atom_facts(t);
            let r = render_spec(t, true);
            assert(tt == seq![r]);
            assert(toks[i] == r);
            if t is Str {
                assert(r[0] == '"');
            } else {
                assert(!is_single(r[0]));
            }
            lemma_tok_ne(r, '(');
            lemma_tok_ne(r, '[');
            lemma_tok_ne(r, '{');
            assert(parse_form(toks, i, fuel) == (atom_spec(r), i + 1));
        },
    }
}

/// Parsing forms whose tokens are a rendered sequence followed by the closer
/// yields the sequence and consumes the closer.
proof fn lemma_parse_items_at(toks: Seq<Seq<char>>, i: int, l: Seq<TermV>, end: char, fuel: nat)
    requires
        items_roundtrip(l),
        0 <= i,
        i + items_tokens(l).len() + 1 <= toks.len(),
        toks.subrange(i, i + items_tokens(l).len() as int) == items_tokens(l),
        toks[i + items_tokens(l).len() as int] == seq![end],
        end == ')' || end == ']' || end == '}',
        fuel >= 2 * (toks.len() - i) + 2,
    ensures
        parse_items(toks, i, end, fuel) == (
            Ok::<Seq<TermV>, ErrV>(l),
            i + items_tokens(l).len() as int + 1,
        ),
    decreases l, 2int,
{
    let its = items_tokens(l);
    if l.len() == 0 {
        assert(its =~= Seq::<Seq<char>>::empty());
        assert(toks[i] == seq![end]);
        assert(parse_items(toks, i, end, fuel) == (Ok::<Seq<TermV>, ErrV>(Seq::empty()), i + 1));
        assert(l =~= Seq::<TermV>::empty());
    } else {
        let t0 = term_tokens(l[0]);
        let rest = l.subrange(1, l.len() as int);
        assert(its == t0 + items_tokens(rest));
        lemma_term_tokens_len(l[0]);
        assert(toks[i] == its[0]);
        assert(its[0] == t0[0]);
        lemma_first_token_not_closer(l[0]);
        assert(toks[i] != seq![')'] && toks[i] != seq![']'] && toks[i] != seq!['}']);
        assert forall|k: int| 0 <= k < t0.len() implies toks.subrange(i, i + t0.len() as int)[k]
            == t0[k] by {
            assert(toks[i + k] == its[k]);
        }
        assert(toks.subrange(i, i + t0.len() as int) =~= t0);
        lemma_parse_at(toks, i, l[0], (fuel - 1) as nat);
        let j = i + t0.len() as int;
        let rits = items_tokens(rest);
        let sub2 = toks.subrange(j, j + rits.len() as int);
        assert forall|k: int| 0 <= k < rits.len() implies sub2[k] == rits[k] by {
            assert(toks[j + k] == its[t0.len() + k]);
        }
        assert(toks.subrange(j, j + rits.len() as int) =~= rits);
        assert(toks[j + rits.len() as int] == toks[i + its.len() as int]);
        lemma_parse_items_at(toks, j, rest, end, (fuel - 1) as nat);
        assert(seq![l[0]] + rest =~= l);
    }
}

/// Round trip: a term built from literals, rendered readably and read back,
/// is reproduced exactly, at any nesting depth. `term_roundtrips` names the
/// terms this holds for, and why the others cannot qualify.
pub proof fn lemma_read_render(t: TermV)
    requires
        term_roundtrips(t),
    ensures
        read_spec(render_spec(t, true)) == Ok::<TermV, ErrV>(t),
{
    let u = render_spec(t, true);
    assert(u.subrange(0, u.len() as int) =~= u);
    lemma_term_tokens_at(u, 0, t);
    assert(tokens_from(u, u.len() as int) =~= Seq::<Seq<char>>::empty());
    let toks = tokenize_spec(u);
    assert(toks =~= term_tokens(t));
    lemma_term_tokens_len(t);
    assert(toks.subrange(0, toks.len() as int) =~= toks);
    lemma_parse_at(toks, 0, t, (2 * toks.len() + 2) as nat);
}

/// A `let*` form's bindings live only in its own child frame: whatever the
/// bindings and body do — including `def!` — evaluating the form hands back
/// the caller's environment unchanged, so an outer binding a `let*` shadowed
/// still resolves to its old value afterwards.
pub proof fn lemma_let_star_preserves_env(t: TermV, env: crate::eval::EnvV)
    requires
        t matches TermV::List(l) && l.len() > 0 && l[0] == TermV::Symbol(
            crate::eval::let_chars(),
        ),
    ensures
        crate::eval::eval_spec(t, env).1 == env,
{
    let l = t->List_0;
    assert(l[0] != TermV::Symbol(crate::eval::def_chars())) by {
        assert(crate::eval::let_chars()[0] == 'l');
        assert(crate::eval::def_chars()[0] == 'd');
    }
}

} // verus!
