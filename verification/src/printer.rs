//! The printer: renders a term back to text. In readable mode the contents of
//! string terms are escaped with exactly the inverse of the reader's unescape
//! table, so the output re-parses as the same literal.

use vstd::prelude::*;

use crate::types::EntryV;
use crate::types::MalType;
use crate::types::TermV;
use crate::types::term_view;

verus! {

/// How one string character prints in readable mode.
pub open spec fn escape_char(c: char) -> Seq<char> {
    if c == '\\' {
        seq!['\\', '\\']
    } else if c == '\n' {
        seq!['\\', 'n']
    } else if c == '"' {
        seq!['\\', '"']
    } else {
        seq![c]
    }
}

/// The readable form of a string's characters: backslashes, newlines and
/// quotes escaped, everything else verbatim.
pub open spec fn escape_spec(s: Seq<char>) -> Seq<char>
    decreases s.len(),
{
    if s.len() == 0 {
        Seq::empty()
    } else {
        escape_char(s[0]) + escape_spec(s.subrange(1, s.len() as int))
    }
}

/// The decimal digit characters.
pub open spec fn digit_char(d: nat) -> char {
    if d == 0 {
        '0'
    } else if d == 1 {
        '1'
    } else if d == 2 {
        '2'
    } else if d == 3 {
        '3'
    } else if d == 4 {
        '4'
    } else if d == 5 {
        '5'
    } else if d == 6 {
        '6'
    } else if d == 7 {
        '7'
    } else if d == 8 {
        '8'
    } else {
        '9'
    }
}

/// The decimal digits of a non-negative number, most significant first.
pub open spec fn digits_of(m: nat) -> Seq<char>
    decreases m,
{
    if m < 10 {
        seq![digit_char(m)]
    } else {
        digits_of(m / 10) + seq![digit_char(m % 10)]
    }
}

/// The decimal rendering of an integer.
pub open spec fn int_chars(n: int) -> Seq<char> {
    if n < 0 {
        seq!['-'] + digits_of((-n) as nat)
    } else {
        digits_of(n as nat)
    }
}

/// The fixed placeholder a function term prints as.
pub open spec fn fun_chars() -> Seq<char> {
    seq!['#', '<', 'f', 'u', 'n', 'c', 't', 'i', 'o', 'n', '>']
}

/// The space-joined renderings of a sequence of terms.
pub open spec fn join_items(l: Seq<TermV>, readable: bool) -> Seq<char>
    decreases l, 0int,
{
    if l.len() == 0 {
        Seq::empty()
    } else if l.len() == 1 {
        render_spec(l[0], readable)
    } else {
        render_spec(l[0], readable) + seq![' '] + join_items(
            l.subrange(1, l.len() as int),
            readable,
        )
    }
}

/// The space-joined `key value` renderings of a map's pairs, the key printed
/// as bare text reconstructed from the stored key string.
pub open spec fn join_entries(es: Seq<EntryV>, readable: bool) -> Seq<char>
    decreases es, 0int,
{
    if es.len() == 0 {
        Seq::empty()
    } else if es.len() == 1 {
        es[0].key + seq![' '] + render_spec(es[0].val, readable)
    } else {
        es[0].key + seq![' '] + render_spec(es[0].val, readable) + seq![' '] + join_entries(
            es.subrange(1, es.len() as int),
            readable,
        )
    }
}

/// The textual form of a term. Every variant renders to a fixed shape; when
/// `readable` is set, string contents print escaped.
pub open spec fn render_spec(t: TermV, readable: bool) -> Seq<char>
    decreases t, 1int,
{
    match t {
        TermV::Nil => seq!['n', 'i', 'l'],
        TermV::Bool(b) => if b {
            seq!['t', 'r', 'u', 'e']
        } else {
            seq!['f', 'a', 'l', 's', 'e']
        },
        TermV::Int(i) => int_chars(i as int),
        TermV::Symbol(s) => s,
        TermV::Keyword(s) => seq![':'] + s,
        TermV::Str(s) => if readable {
            seq!['"'] + escape_spec(s) + seq!['"']
        } else {
            seq!['"'] + s + seq!['"']
        },
        TermV::List(l) => seq!['('] + join_items(l, readable) + seq![')'],
        TermV::Vector(l) => seq!['['] + join_items(l, readable) + seq![']'],
        TermV::HashMap(es) => seq!['{'] + join_entries(es, readable) + seq!['}'],
        TermV::Fun(b) => fun_chars(),
    }
}

/// Appending one more term extends a space-joined rendering on the right.
proof fn lemma_join_items_push(l: Seq<TermV>, x: TermV, readable: bool)
    ensures
        join_items(l.push(x), readable) == if l.len() == 0 {
            render_spec(x, readable)
        } else {
            join_items(l, readable) + seq![' '] + render_spec(x, readable)
        },
    decreases l.len(),
{
    if l.len() == 0 {
        assert(l.push(x)[0] == x);
        assert(join_items(l.push(x), readable) == render_spec(x, readable));
    } else {
        let rest = l.subrange(1, l.len() as int);
        assert(l.push(x).subrange(1, l.push(x).len() as int) =~= rest.push(x));
        assert(l.push(x)[0] == l[0]);
        lemma_join_items_push(rest, x, readable);
        if l.len() == 1 {
            assert(rest.len() == 0);
            assert(join_items(l, readable) == render_spec(l[0], readable));
        }
        assert(join_items(l.push(x), readable) =~= join_items(l, readable) + seq![' ']
            + render_spec(x, readable));
    }
}

/// Appending one more pair extends a map rendering on the right.
proof fn lemma_join_entries_push(es: Seq<EntryV>, x: EntryV, readable: bool)
    ensures
        join_entries(es.push(x), readable) == if es.len() == 0 {
            x.key + seq![' '] + render_spec(x.val, readable)
        } else {
            join_entries(es, readable) + seq![' '] + (x.key + seq![' '] + render_spec(
                x.val,
                readable,
            ))
        },
    decreases es.len(),
{
    if es.len() == 0 {
        assert(es.push(x)[0] == x);
    } else {
        let rest = es.subrange(1, es.len() as int);
        assert(es.push(x).subrange(1, es.push(x).len() as int) =~= rest.push(x));
        assert(es.push(x)[0] == es[0]);
        lemma_join_entries_push(rest, x, readable);
        if es.len() == 1 {
            assert(rest.len() == 0);
        }
        assert(join_entries(es.push(x), readable) =~= join_entries(es, readable) + seq![' '] + (
        x.key + seq![' '] + render_spec(x.val, readable)));
    }
}

/// One decimal digit as a character.
fn digit_char_exec(d: u32) -> (c: char)
    requires
        d < 10,
    ensures
        c == digit_char(d as nat),
{
    if d == 0 {
        '0'
    } else if d == 1 {
        '1'
    } else if d == 2 {
        '2'
    } else if d == 3 {
        '3'
    } else if d == 4 {
        '4'
    } else if d == 5 {
        '5'
    } else if d == 6 {
        '6'
    } else if d == 7 {
        '7'
    } else if d == 8 {
        '8'
    } else {
        '9'
    }
}

/// Append the decimal digits of a number.
fn push_digits(m: u32, out: &mut Vec<char>)
    ensures
        final(out)@ == old(out)@ + digits_of(m as nat),
    decreases m,
{
    if m < 10 {
        out.push(digit_char_exec(m));
        proof {
            assert(final(out)@ =~= old(out)@ + digits_of(m as nat));
        }
    } else {
        push_digits(m / 10, out);
        out.push(digit_char_exec(m % 10));
        proof {
            assert((old(out)@ + digits_of(m as nat / 10)).push(digit_char((m % 10) as nat)) =~= old(
                out,
            )@ + (digits_of(m as nat / 10) + seq![digit_char((m % 10) as nat)]));
        }
    }
}

/// Append every character of a vector.
fn push_all(out: &mut Vec<char>, xs: &Vec<char>)
    ensures
        final(out)@ == old(out)@ + xs@,
{
    let mut i: usize = 0;
    while i < xs.len()
        invariant
            i <= xs@.len(),
            out@ == old(out)@ + xs@.subrange(0, i as int),
        decreases xs@.len() - i,
    {
        out.push(xs[i]);
        proof {
            assert((old(out)@ + xs@.subrange(0, i as int)).push(xs@[i as int]) =~= old(out)@
                + xs@.subrange(0, i as int + 1));
        }
        i = i + 1;
    }
    proof {
        assert(out@ =~= old(out)@ + xs@);
        assert(xs@.subrange(0, 0) =~= Seq::<char>::empty());
    }
}

/// Append a string's characters, escaped when `readable` is set.
#[verifier::loop_isolation(false)]
fn push_str_body(s: &str, readable: bool, out: &mut Vec<char>)
    ensures
        final(out)@ == old(out)@ + (if readable {
            escape_spec(s@)
        } else {
            s@
        }),
{
    let chars = crate::types::string_to_chars(s);
    if !readable {
        push_all(out, &chars);
        return ;
    }
    let mut i: usize = 0;
    while i < chars.len()
        invariant
            i <= chars@.len(),
            chars@ == s@,
            out@ == old(out)@ + escape_spec(s@.subrange(0, i as int)),
        decreases chars@.len() - i,
    {
        let c = chars[i];
        let ghost pre = out@;
        if c == '\\' {
            out.push('\\');
            out.push('\\');
        } else if c == '\n' {
            out.push('\\');
            out.push('n');
        } else if c == '"' {
            out.push('\\');
            out.push('"');
        } else {
            out.push(c);
        }
        proof {
            assert(out@ =~= pre + escape_char(s@[i as int]));
            lemma_escape_append(s@.subrange(0, i as int), s@[i as int]);
            assert(s@.subrange(0, i as int).push(s@[i as int]) =~= s@.subrange(0, i as int + 1));
            assert(out@ =~= old(out)@ + escape_spec(s@.subrange(0, i as int + 1)));
        }
        i = i + 1;
    }
    proof {
        assert(s@.subrange(0, s@.len() as int) =~= s@);
        assert(escape_spec(s@.subrange(0, 0)) =~= Seq::<char>::empty());
    }
}

/// Escaping one more character extends an escaped rendering on the right.
proof fn lemma_escape_append(s: Seq<char>, c: char)
    ensures
        escape_spec(s.push(c)) == escape_spec(s) + escape_char(c),
    decreases s.len(),
{
    if s.len() == 0 {
        assert(s.push(c)[0] == c);
        assert(s.push(c).subrange(1, 1) =~= Seq::<char>::empty());
        assert(escape_spec(Seq::<char>::empty()) =~= Seq::<char>::empty());
        assert(escape_spec(s.push(c)) == escape_char(c) + escape_spec(s.push(c).subrange(1, 1)));
        assert(escape_spec(s.push(c)) =~= escape_spec(s) + escape_char(c));
    } else {
        let rest = s.subrange(1, s.len() as int);
        assert(s.push(c).subrange(1, s.push(c).len() as int) =~= rest.push(c));
        assert(s.push(c)[0] == s[0]);
        lemma_escape_append(rest, c);
        assert(escape_spec(s.push(c)) == escape_char(s[0]) + escape_spec(rest.push(c)));
        assert(escape_spec(s) == escape_char(s[0]) + escape_spec(rest));
        assert(escape_char(s[0]) + (escape_spec(rest) + escape_char(c)) =~= (escape_char(s[0])
            + escape_spec(rest)) + escape_char(c));
    }
}

/// Append the rendering of one term.
#[verifier::loop_isolation(false)]
fn render_into(t: &MalType, readable: bool, out: &mut Vec<char>)
    ensures
        final(out)@ == old(out)@ + render_spec(term_view(*t), readable),
    decreases t,
{
    match t {
        MalType::Nil => {
            out.push('n');
            out.push('i');
            out.push('l');
            proof {
                assert(out@ =~= old(out)@ + render_spec(term_view(*t), readable));
            }
        },
        MalType::Bool(b) => {
            if *b {
                out.push('t');
                out.push('r');
                out.push('u');
                out.push('e');
            } else {
                out.push('f');
                out.push('a');
                out.push('l');
                out.push('s');
                out.push('e');
            }
            proof {
                assert(out@ =~= old(out)@ + render_spec(term_view(*t), readable));
            }
        },
        MalType::Int(i) => {
            let n = *i;
            if n < 0 {
                out.push('-');
                let mag = (-(n as i64)) as u32;
                proof {
                    assert(mag as nat == (-(n as int)) as nat);
                }
                push_digits(mag, out);
                proof {
                    assert(old(out)@.push('-') + digits_of(mag as nat) =~= old(out)@ + (seq!['-']
                        + digits_of(mag as nat)));
                }
            } else {
                push_digits(n as u32, out);
            }
            proof {
                assert(out@ =~= old(out)@ + render_spec(term_view(*t), readable));
            }
        },
        MalType::Symbol(s) => {
            let chars = crate::types::string_to_chars(s.as_str());
            push_all(out, &chars);
        },
        MalType::Keyword(s) => {
            out.push(':');
            let chars = crate::types::string_to_chars(s.as_str());
            push_all(out, &chars);
            proof {
                assert(old(out)@.push(':') + s@ =~= old(out)@ + (seq![':'] + s@));
            }
        },
        MalType::Str(s) => {
            out.push('"');
            push_str_body(s.as_str(), readable, out);
            out.push('"');
            proof {
                let body = if readable {
                    escape_spec(s@)
                } else {
                    s@
                };
                assert((old(out)@.push('"') + body).push('"') =~= old(out)@ + (seq!['"'] + body
                    + seq!['"']));
            }
        },
        MalType::Fun(b) => {
            out.push('#');
            out.push('<');
            out.push('f');
            out.push('u');
            out.push('n');
            out.push('c');
            out.push('t');
            out.push('i');
            out.push('o');
            out.push('n');
            out.push('>');
            proof {
                assert(out@ =~= old(out)@ + fun_chars());
            }
        },
        MalType::List(l) => {
            out.push('(');
            render_items_into(l, readable, out);
            out.push(')');
            proof {
                let lv = crate::types::terms_view(l@);
                assert((old(out)@.push('(') + join_items(lv, readable)).push(')') =~= old(out)@ + (
                seq!['('] + join_items(lv, readable) + seq![')']));
            }
        },
        MalType::Vector(l) => {
            out.push('[');
            render_items_into(l, readable, out);
            out.push(']');
            proof {
                let lv = crate::types::terms_view(l@);
                assert((old(out)@.push('[') + join_items(lv, readable)).push(']') =~= old(out)@ + (
                seq!['['] + join_items(lv, readable) + seq![']']));
            }
        },
        MalType::HashMap(m) => {
            out.push('{');
            render_entries_into(&m.entries, readable, out);
            out.push('}');
            proof {
                let ev = crate::types::entries_view(m.entries@);
                assert((old(out)@.push('{') + join_entries(ev, readable)).push('}') =~= old(out)@
                    + (seq!['{'] + join_entries(ev, readable) + seq!['}']));
            }
        },
    }
}

/// Append the space-joined renderings of a term sequence.
#[verifier::loop_isolation(false)]
fn render_items_into(l: &Vec<MalType>, readable: bool, out: &mut Vec<char>)
    ensures
        final(out)@ == old(out)@ + join_items(crate::types::terms_view(l@), readable),
    decreases l,
{
    let ghost lv = crate::types::terms_view(l@);
    proof {
        crate::types::lemma_terms_view(l@);
    }
    let mut i: usize = 0;
    while i < l.len()
        invariant
            i <= l@.len(),
            out@ == old(out)@ + join_items(lv.subrange(0, i as int), readable),
        decreases l@.len() - i,
    {
        let ghost pre = out@;
        if i > 0 {
            out.push(' ');
        }
        render_into(&l[i], readable, out);
        proof {
            let prefix = lv.subrange(0, i as int);
            lemma_join_items_push(prefix, lv[i as int], readable);
            assert(prefix.push(lv[i as int]) =~= lv.subrange(0, i as int + 1));
            if i > 0 {
                assert((pre.push(' ')) + render_spec(lv[i as int], readable) =~= pre + (seq![' ']
                    + render_spec(lv[i as int], readable)));
                assert((join_items(prefix, readable) + seq![' ']) + render_spec(
                    lv[i as int],
                    readable,
                ) =~= join_items(prefix, readable) + (seq![' '] + render_spec(
                    lv[i as int],
                    readable,
                )));
                assert(out@ =~= old(out)@ + join_items(lv.subrange(0, i as int + 1), readable));
            } else {
                assert(out@ =~= old(out)@ + join_items(lv.subrange(0, i as int + 1), readable));
            }
        }
        i = i + 1;
    }
    proof {
        assert(lv.subrange(0, lv.len() as int) =~= lv);
        assert(join_items(lv.subrange(0, 0), readable) =~= Seq::<char>::empty());
        assert(out@ =~= old(out)@ + join_items(lv, readable));
    }
}

/// Append the space-joined `key value` renderings of a map's pairs.
#[verifier::loop_isolation(false)]
fn render_entries_into(es: &Vec<crate::types::MapEntry>, readable: bool, out: &mut Vec<char>)
    ensures
        final(out)@ == old(out)@ + join_entries(crate::types::entries_view(es@), readable),
    decreases es,
{
    let ghost ev = crate::types::entries_view(es@);
    proof {
        crate::types::lemma_entries_view(es@);
    }
    let mut i: usize = 0;
    while i < es.len()
        invariant
            i <= es@.len(),
            out@ == old(out)@ + join_entries(ev.subrange(0, i as int), readable),
        decreases es@.len() - i,
    {
        let ghost pre = out@;
        if i > 0 {
            out.push(' ');
        }
        let ghost mid = out@;
        let kc = crate::types::string_to_chars(es[i].key.as_str());
        push_all(out, &kc);
        out.push(' ');
        render_into(&es[i].val, readable, out);
        proof {
            let prefix = ev.subrange(0, i as int);
            let x = ev[i as int];
            lemma_join_entries_push(prefix, x, readable);
            assert(prefix.push(x) =~= ev.subrange(0, i as int + 1));
            assert(((mid + x.key).push(' ')) + render_spec(x.val, readable) =~= mid + (x.key + seq![
                ' ',
            ] + render_spec(x.val, readable)));
            if i > 0 {
                assert(mid =~= pre + seq![' ']);
                assert((join_entries(prefix, readable) + seq![' ']) + (x.key + seq![' ']
                    + render_spec(x.val, readable)) =~= join_entries(prefix, readable) + (seq![' ']
                    + (x.key + seq![' '] + render_spec(x.val, readable))));
                assert(pre + (seq![' '] + (x.key + seq![' '] + render_spec(x.val, readable)))
                    =~= pre + seq![' '] + (x.key + seq![' '] + render_spec(x.val, readable)));
                assert(out@ =~= old(out)@ + join_entries(ev.subrange(0, i as int + 1), readable));
            } else {
                assert(out@ =~= old(out)@ + join_entries(ev.subrange(0, i as int + 1), readable));
            }
        }
        i = i + 1;
    }
    proof {
        assert(ev.subrange(0, ev.len() as int) =~= ev);
        assert(join_entries(ev.subrange(0, 0), readable) =~= Seq::<char>::empty());
        assert(out@ =~= old(out)@ + join_entries(ev, readable));
    }
}

/// Render a term to text; when `print_readably` is set, string contents are
/// escaped so the output re-parses as the same literal.
pub fn pr_str(expr: MalType, print_readably: bool) -> (r: String)
    ensures
        r@ == render_spec(term_view(expr), print_readably),
{
    let mut out: Vec<char> = Vec::new();
    render_into(&expr, print_readably, &mut out);
    proof {
        assert(Seq::<char>::empty() + render_spec(term_view(expr), print_readably) =~= render_spec(
            term_view(expr),
            print_readably,
        ));
    }
    crate::types::chars_to_string(&out)
}

} // verus!
