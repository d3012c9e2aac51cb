//! The evaluator: a pure recursive reduction of one term to one value,
//! parameterized by a mutable environment. Special forms are dispatched on the
//! leading symbol before any sub-term is evaluated; every other list is
//! evaluated element by element and, when its head reduces to a function,
//! applied.

use vstd::prelude::*;

use crate::env::MalEnv;
use crate::env::apply_spec;
use crate::env::env_lookup;
use crate::types::Builtin;
use crate::types::EntryV;
use crate::types::ErrV;
use crate::types::MalError;
use crate::types::MalHashMap;
use crate::types::MalResult;
use crate::types::MalType;
use crate::types::MapEntry;
use crate::types::TermV;
use crate::types::entries_view;
use crate::types::lemma_entries_view;
use crate::types::lemma_terms_view;
use crate::types::res_matches;
use crate::types::str_eq;
use crate::types::term_view;
use crate::types::terms_view;

verus! {

/// The abstract value of an environment chain.
pub type EnvV = Seq<Map<Seq<char>, TermV>>;

/// Binding a name in the innermost frame of an abstract environment.
pub open spec fn set_env(env: EnvV, name: Seq<char>, v: TermV) -> EnvV {
    env.update(env.len() - 1, env.last().insert(name, v))
}

/// The characters of the binding special form's name.
pub open spec fn def_chars() -> Seq<char> {
    seq!['d', 'e', 'f', '!']
}

/// The characters of the local-scope special form's name.
pub open spec fn let_chars() -> Seq<char> {
    seq!['l', 'e', 't', '*']
}

/// What evaluating a sequence of terms left to right yields: the evaluated
/// terms, or the first failure, together with the environment as the last
/// evaluation step left it.
pub open spec fn eval_seq_spec(ts: Seq<TermV>, env: EnvV) -> (Result<Seq<TermV>, ErrV>, EnvV)
    decreases ts, 1int,
{
    if ts.len() == 0 {
        (Ok(Seq::empty()), env)
    } else {
        let p = eval_spec(ts[0], env);
        match p.0 {
            Err(e) => (Err(e), p.1),
            Ok(v) => {
                let q = eval_seq_spec(ts.subrange(1, ts.len() as int), p.1);
                match q.0 {
                    Err(e) => (Err(e), q.1),
                    Ok(vs) => (Ok(seq![v] + vs), q.1),
                }
            },
        }
    }
}

/// What evaluating every map value yields, keys unchanged.
pub open spec fn eval_entries_spec(es: Seq<EntryV>, env: EnvV) -> (Result<Seq<EntryV>, ErrV>, EnvV)
    decreases es, 1int,
{
    if es.len() == 0 {
        (Ok(Seq::empty()), env)
    } else {
        let p = eval_spec(es[0].val, env);
        match p.0 {
            Err(e) => (Err(e), p.1),
            Ok(v) => {
                let q = eval_entries_spec(es.subrange(1, es.len() as int), p.1);
                match q.0 {
                    Err(e) => (Err(e), q.1),
                    Ok(vs) => (Ok(seq![EntryV { key: es[0].key, val: v }] + vs), q.1),
                }
            },
        }
    }
}

/// What binding a `let*` binding list into an environment yields: pairs are
/// bound in order, each value seeing every binding made before it; a dangling
/// unpaired form is ignored; a non-symbol binding target is a runtime failure.
pub open spec fn eval_binds_spec(bs: Seq<TermV>, env: EnvV) -> (Result<(), ErrV>, EnvV)
    decreases bs, 1int,
{
    if bs.len() < 2 {
        (Ok(()), env)
    } else {
        let p = eval_spec(bs[1], env);
        match p.0 {
            Err(e) => (Err(e), p.1),
            Ok(v) => match bs[0] {
                TermV::Symbol(name) => eval_binds_spec(
                    bs.subrange(2, bs.len() as int),
                    set_env(p.1, name, v),
                ),
                _ => (Err(ErrV::Runtime), p.1),
            },
        }
    }
}

/// The self-evaluation rule: a symbol resolves through the chain or fails; a
/// container evaluates each element in place and is rebuilt; every scalar
/// evaluates to itself.
pub open spec fn eval_ast_spec(t: TermV, env: EnvV) -> (Result<TermV, ErrV>, EnvV)
    decreases t, 0int,
{
    match t {
        TermV::Symbol(s) => (
            match env_lookup(env, s) {
                Some(v) => Ok(v),
                None => Err(ErrV::Runtime),
            },
            env,
        ),
        TermV::List(l) => {
            let p = eval_seq_spec(l, env);
            (
                match p.0 {
                    Ok(vs) => Ok(TermV::List(vs)),
                    Err(e) => Err(e),
                },
                p.1,
            )
        },
        TermV::Vector(l) => {
            let p = eval_seq_spec(l, env);
            (
                match p.0 {
                    Ok(vs) => Ok(TermV::Vector(vs)),
                    Err(e) => Err(e),
                },
                p.1,
            )
        },
        TermV::HashMap(es) => {
            let p = eval_entries_spec(es, env);
            (
                match p.0 {
                    Ok(vs) => Ok(TermV::HashMap(vs)),
                    Err(e) => Err(e),
                },
                p.1,
            )
        },
        _ => (Ok(t), env),
    }
}

/// What evaluating one term yields, and the environment it leaves behind.
///
/// A non-list delegates to the self-evaluation rule. The empty list is data.
/// A non-empty list is either the `def!` or `let*` special form, or is
/// evaluated element by element and applied when its head is a function —
/// when the head is not a function the evaluated list itself is the result.
pub open spec fn eval_spec(t: TermV, env: EnvV) -> (Result<TermV, ErrV>, EnvV)
    decreases t, 2int,
{
    match t {
        TermV::List(l) => {
            if l.len() == 0 {
                (Ok(TermV::List(l)), env)
            } else if l[0] == TermV::Symbol(def_chars()) {
                if l.len() != 3 {
                    (Err(ErrV::Runtime), env)
                } else {
                    let p = eval_spec(l[2], env);
                    match p.0 {
                        Err(e) => (Err(e), p.1),
                        Ok(v) => match l[1] {
                            TermV::Symbol(name) => (Ok(v), set_env(p.1, name, v)),
                            _ => (Err(ErrV::Runtime), p.1),
                        },
                    }
                }
            } else if l[0] == TermV::Symbol(let_chars()) {
                if l.len() != 3 {
                    (Err(ErrV::Runtime), env)
                } else {
                    match l[1] {
                        TermV::List(bs) => {
                            let q = eval_binds_spec(bs, env.push(Map::empty()));
                            match q.0 {
                                Err(e) => (Err(e), env),
                                Ok(u) => (eval_spec(l[2], q.1).0, env),
                            }
                        },
                        TermV::Vector(bs) => {
                            let q = eval_binds_spec(bs, env.push(Map::empty()));
                            match q.0 {
                                Err(e) => (Err(e), env),
                                Ok(u) => (eval_spec(l[2], q.1).0, env),
                            }
                        },
                        _ => (Err(ErrV::Runtime), env),
                    }
                }
            } else {
                let p = eval_seq_spec(l, env);
                match p.0 {
                    Err(e) => (Err(e), p.1),
                    Ok(vs) => match vs[0] {
                        TermV::Fun(f) => (apply_spec(f, vs.subrange(1, vs.len() as int)), p.1),
                        _ => (Ok(TermV::List(vs)), p.1),
                    },
                }
            }
        },
        _ => eval_ast_spec(t, env),
    }
}

/// Bind a name to a value in the current frame; any other binding target is a
/// runtime failure that leaves the environment unchanged.
pub fn update_env(key: &MalType, val: MalType, env: &mut MalEnv) -> (r: MalResult<()>)
    requires
        old(env).wf(),
    ensures
        match r {
            Ok(u) => term_view(*key) matches TermV::Symbol(name) && final(env)@ == set_env(
                old(env)@,
                name,
                term_view(val),
            ),
            Err(e) => !(term_view(*key) is Symbol) && e@ == ErrV::Runtime && final(env)@ == old(
                env,
            )@,
        },
        final(env).wf(),
{
    if let MalType::Symbol(s) = key {
        env.set(s.clone(), val);
        Ok(())
    } else {
        Err(MalError::RuntimeError(String::from_str("a binding target must be a symbol")))
    }
}

/// The self-evaluation rule, executable side.
pub fn eval_ast(t: &MalType, env: &mut MalEnv) -> (r: MalResult<MalType>)
    requires
        old(env).wf(),
    ensures
        res_matches(r, eval_ast_spec(term_view(*t), old(env)@).0),
        final(env)@ == eval_ast_spec(term_view(*t), old(env)@).1,
        final(env).wf(),
    decreases t, 0int,
{
    match t {
        MalType::Symbol(s) => {
            match env.get(s) {
                Some(v) => Ok(v),
                None => Err(
                    MalError::RuntimeError(
                        String::from_str("symbol not found in any enclosing scope"),
                    ),
                ),
            }
        },
        MalType::List(l) => {
            match eval_seq(l, env) {
                Ok(vs) => Ok(MalType::List(vs)),
                Err(e) => Err(e),
            }
        },
        MalType::Vector(l) => {
            match eval_seq(l, env) {
                Ok(vs) => Ok(MalType::Vector(vs)),
                Err(e) => Err(e),
            }
        },
        MalType::HashMap(m) => {
            match eval_entries(&m.entries, env) {
                Ok(es) => Ok(MalType::HashMap(MalHashMap { entries: es })),
                Err(e) => Err(e),
            }
        },
        MalType::Nil => Ok(MalType::Nil),
        MalType::Bool(b) => Ok(MalType::Bool(*b)),
        MalType::Int(i) => Ok(MalType::Int(*i)),
        MalType::Keyword(s) => Ok(MalType::Keyword(s.clone())),
        MalType::Str(s) => Ok(MalType::Str(s.clone())),
        MalType::Fun(b) => Ok(MalType::Fun(*b)),
    }
}

/// Evaluate each term of a sequence left to right, threading the environment.
#[verifier::loop_isolation(false)]
fn eval_seq(l: &Vec<MalType>, env: &mut MalEnv) -> (r: MalResult<Vec<MalType>>)
    requires
        old(env).wf(),
    ensures
        ({
            let p = eval_seq_spec(terms_view(l@), old(env)@);
            &&& match r {
                Ok(vs) => p.0 == Ok::<Seq<TermV>, ErrV>(terms_view(vs@)) && vs@.len() == l@.len(),
                Err(e) => p.0 == Err::<Seq<TermV>, ErrV>(e@),
            }
            &&& final(env)@ == p.1
        }),
        final(env).wf(),
    decreases l, 1int,
{
    let ghost tv = terms_view(l@);
    let ghost env0 = old(env)@;
    let ghost full = eval_seq_spec(tv, env0);
    proof {
        lemma_terms_view(l@);
        assert(tv.subrange(0, tv.len() as int) =~= tv);
        if let Ok(vs) = full.0 {
            assert(Seq::<TermV>::empty() + vs =~= vs);
        }
        assert(terms_view(Seq::<MalType>::empty()) =~= Seq::<TermV>::empty());
    }
    let mut out: Vec<MalType> = Vec::new();
    let mut i: usize = 0;
    while i < l.len()
        invariant
            i <= l@.len(),
            out@.len() == i,
            tv == terms_view(l@),
            tv.len() == l@.len(),
            forall|j: int| 0 <= j < l@.len() ==> tv[j] == term_view(#[trigger] l@[j]),
            env.wf(),
            full == eval_seq_spec(tv, env0),
            full.1 == eval_seq_spec(tv.subrange(i as int, tv.len() as int), env@).1,
            full.0 == match eval_seq_spec(tv.subrange(i as int, tv.len() as int), env@).0 {
                Ok(vs) => Ok::<Seq<TermV>, ErrV>(terms_view(out@) + vs),
                Err(e) => Err::<Seq<TermV>, ErrV>(e),
            },
        decreases l@.len() - i,
    {
        let ghost rem = tv.subrange(i as int, tv.len() as int);
        proof {
            assert(rem[0] == tv[i as int]);
            assert(rem[0] == term_view(l@[i as int]));
            assert(rem.subrange(1, rem.len() as int) =~= tv.subrange(
                i as int + 1,
                tv.len() as int,
            ));
        }
        let ghost env_pre = env@;
        let one = eval(&l[i], env);
        match one {
            Err(e) => {
                proof {
                    let p = eval_spec(rem[0], env_pre);
                    assert(p.0 == Err::<TermV, ErrV>(e@));
                    assert(eval_seq_spec(rem, env_pre).0 == Err::<Seq<TermV>, ErrV>(e@));
                    assert(eval_seq_spec(rem, env_pre).1 == p.1);
                    assert(full.0 == Err::<Seq<TermV>, ErrV>(e@));
                    assert(full.1 == env@);
                    assert(env0 == old(env)@);
                    assert(eval_seq_spec(terms_view(l@), old(env)@).0 == Err::<Seq<TermV>, ErrV>(
                        e@,
                    ));
                }
                return Err(e);
            },
            Ok(v) => {
                let ghost old_out = out@;
                let ghost xv = term_view(v);
                out.push(v);
                proof {
                    crate::types::lemma_terms_view_push(old_out, out@.last());
                    assert(out@ == old_out.push(out@.last()));
                    let q = eval_seq_spec(tv.subrange(i as int + 1, tv.len() as int), env@);
                    if let Ok(vs) = q.0 {
                        assert((terms_view(old_out) + seq![xv]) + vs =~= terms_view(old_out) + (
                        seq![xv] + vs));
                    }
                }
            },
        }
        i = i + 1;
    }
    proof {
        assert(tv.subrange(tv.len() as int, tv.len() as int) =~= Seq::<TermV>::empty());
        if let Ok(vs) = eval_seq_spec(tv.subrange(tv.len() as int, tv.len() as int), env@).0 {
            assert(terms_view(out@) + vs =~= terms_view(out@));
        }
    }
    Ok(out)
}

/// Evaluate each map value left to right, threading the environment.
#[verifier::loop_isolation(false)]
fn eval_entries(l: &Vec<MapEntry>, env: &mut MalEnv) -> (r: MalResult<Vec<MapEntry>>)
    requires
        old(env).wf(),
    ensures
        ({
            let p = eval_entries_spec(entries_view(l@), old(env)@);
            &&& match r {
                Ok(es) => p.0 == Ok::<Seq<EntryV>, ErrV>(entries_view(es@)) && es@.len()
                    == l@.len(),
                Err(e) => p.0 == Err::<Seq<EntryV>, ErrV>(e@),
            }
            &&& final(env)@ == p.1
        }),
        final(env).wf(),
    decreases l, 1int,
{
    let ghost ev = entries_view(l@);
    let ghost env0 = old(env)@;
    let ghost full = eval_entries_spec(ev, env0);
    proof {
        lemma_entries_view(l@);
        assert(ev.subrange(0, ev.len() as int) =~= ev);
        if let Ok(vs) = full.0 {
            assert(Seq::<EntryV>::empty() + vs =~= vs);
        }
        assert(entries_view(Seq::<MapEntry>::empty()) =~= Seq::<EntryV>::empty());
    }
    let mut out: Vec<MapEntry> = Vec::new();
    let mut i: usize = 0;
    while i < l.len()
        invariant
            i <= l@.len(),
            out@.len() == i,
            ev == entries_view(l@),
            ev.len() == l@.len(),
            forall|j: int|
                0 <= j < l@.len() ==> ev[j] == (EntryV {
                    key: (#[trigger] l@[j]).key@,
                    val: term_view(l@[j].val),
                }),
            env.wf(),
            full == eval_entries_spec(ev, env0),
            full.1 == eval_entries_spec(ev.subrange(i as int, ev.len() as int), env@).1,
            full.0 == match eval_entries_spec(ev.subrange(i as int, ev.len() as int), env@).0 {
                Ok(vs) => Ok::<Seq<EntryV>, ErrV>(entries_view(out@) + vs),
                Err(e) => Err::<Seq<EntryV>, ErrV>(e),
            },
        decreases l@.len() - i,
    {
        let ghost rem = ev.subrange(i as int, ev.len() as int);
        proof {
            assert(rem[0] == ev[i as int]);
            assert(rem[0] == (EntryV { key: l@[i as int].key@, val: term_view(l@[i as int].val) }));
            assert(rem.subrange(1, rem.len() as int) =~= ev.subrange(
                i as int + 1,
                ev.len() as int,
            ));
        }
        let ghost env_pre = env@;
        let one = eval(&l[i].val, env);
        match one {
            Err(e) => {
                proof {
                    let p = eval_spec(rem[0].val, env_pre);
                    assert(p.0 == Err::<TermV, ErrV>(e@));
                    assert(eval_entries_spec(rem, env_pre).0 == Err::<Seq<EntryV>, ErrV>(e@));
                    assert(eval_entries_spec(rem, env_pre).1 == p.1);
                    assert(full.0 == Err::<Seq<EntryV>, ErrV>(e@));
                    assert(full.1 == env@);
                    assert(env0 == old(env)@);
                    assert(eval_entries_spec(entries_view(l@), old(env)@).0 == Err::<
                        Seq<EntryV>,
                        ErrV,
                    >(e@));
                }
                return Err(e);
            },
            Ok(v) => {
                let ghost old_out = out@;
                out.push(MapEntry { key: l[i].key.clone(), val: v });
                proof {
                    crate::types::lemma_entries_view_push(old_out, out@.last());
                    assert(out@ == old_out.push(out@.last()));
                    let last = EntryV {
                        key: out@.last().key@,
                        val: term_view(out@.last().val),
                    };
                    let q = eval_entries_spec(ev.subrange(i as int + 1, ev.len() as int), env@);
                    if let Ok(vs) = q.0 {
                        assert((entries_view(old_out) + seq![last]) + vs =~= entries_view(old_out)
                            + (seq![last] + vs));
                    }
                }
            },
        }
        i = i + 1;
    }
    proof {
        assert(ev.subrange(ev.len() as int, ev.len() as int) =~= Seq::<EntryV>::empty());
        if let Ok(vs) = eval_entries_spec(ev.subrange(ev.len() as int, ev.len() as int), env@).0 {
            assert(entries_view(out@) + vs =~= entries_view(out@));
        }
    }
    Ok(out)
}

/// Bind a `let*` binding list into the (child) environment, pair by pair.
#[verifier::loop_isolation(false)]
fn let_binds(bs: &Vec<MalType>, inner: &mut MalEnv) -> (r: MalResult<()>)
    requires
        old(inner).wf(),
    ensures
        ({
            let q = eval_binds_spec(terms_view(bs@), old(inner)@);
            match r {
                Ok(u) => q.0 is Ok && final(inner)@ == q.1,
                Err(e) => q.0 == Err::<(), ErrV>(e@),
            }
        }),
        final(inner).wf(),
    decreases bs, 3int,
{
    let ghost bv = terms_view(bs@);
    let ghost env0 = old(inner)@;
    let ghost full = eval_binds_spec(bv, env0);
    proof {
        lemma_terms_view(bs@);
        assert(bv.subrange(0, bv.len() as int) =~= bv);
    }
    let mut j: usize = 0;
    while j < bs.len() && j + 1 < bs.len()
        invariant
            j <= bs@.len(),
            bv == terms_view(bs@),
            bv.len() == bs@.len(),
            forall|k: int| 0 <= k < bs@.len() ==> bv[k] == term_view(#[trigger] bs@[k]),
            inner.wf(),
            full == eval_binds_spec(bv, env0),
            full == eval_binds_spec(bv.subrange(j as int, bv.len() as int), inner@),
        decreases bs@.len() - j,
    {
        let ghost rem = bv.subrange(j as int, bv.len() as int);
        proof {
            assert(rem[0] == bv[j as int]);
            assert(rem[0] == term_view(bs@[j as int]));
            assert(rem[1] == bv[j as int + 1]);
            assert(rem[1] == term_view(bs@[j as int + 1]));
            assert(rem.subrange(2, rem.len() as int) =~= bv.subrange(
                j as int + 2,
                bv.len() as int,
            ));
        }
        let ghost env_pre = inner@;
        let v = match eval(&bs[j + 1], inner) {
            Ok(v) => v,
            Err(e) => {
                proof {
                    let p = eval_spec(rem[1], env_pre);
                    assert(p.0 == Err::<TermV, ErrV>(e@));
                    assert(eval_binds_spec(rem, env_pre).0 == Err::<(), ErrV>(e@));
                    assert(full.0 == Err::<(), ErrV>(e@));
                    assert(env0 == old(inner)@);
                    assert(eval_binds_spec(terms_view(bs@), old(inner)@).0 == Err::<(), ErrV>(e@));
                }
                return Err(e);
            },
        };
        match update_env(&bs[j], v, inner) {
            Ok(u) => {},
            Err(e) => {
                proof {
                    let p = eval_spec(rem[1], env_pre);
                    assert(p.0 is Ok);
                    assert(!(rem[0] is Symbol));
                    assert(eval_binds_spec(rem, env_pre).0 == Err::<(), ErrV>(ErrV::Runtime));
                    assert(full.0 == Err::<(), ErrV>(e@));
                    assert(env0 == old(inner)@);
                    assert(eval_binds_spec(terms_view(bs@), old(inner)@).0 == Err::<(), ErrV>(e@));
                }
                return Err(e);
            },
        }
        j = j + 2;
    }
    proof {
        let rem = bv.subrange(j as int, bv.len() as int);
        assert(rem.len() < 2);
    }
    Ok(())
}

/// What one read–eval–print round yields: the rendered value of the first
/// form of the input, or the first failure, and the environment the
/// evaluation leaves behind.
pub open spec fn rep_spec(s: Seq<char>, env: EnvV) -> (Result<Seq<char>, ErrV>, EnvV) {
    match crate::reader::read_spec(s) {
        Err(e) => (Err(e), env),
        Ok(t) => {
            let p = eval_spec(t, env);
            match p.0 {
                Err(e) => (Err(e), p.1),
                Ok(v) => (Ok(crate::printer::render_spec(v, true)), p.1),
            }
        },
    }
}

/// One read–eval–print round: read the first form of the line, evaluate it
/// against the environment, and render the value readably.
pub fn rep(s: &str, env: &mut MalEnv) -> (r: MalResult<String>)
    requires
        old(env).wf(),
    ensures
        ({
            let p = rep_spec(s@, old(env)@);
            &&& match r {
                Ok(out) => p.0 == Ok::<Seq<char>, ErrV>(out@),
                Err(e) => p.0 == Err::<Seq<char>, ErrV>(e@),
            }
            &&& final(env)@ == p.1
        }),
        final(env).wf(),
{
    let t = match crate::reader::read_str(s) {
        Ok(t) => t,
        Err(e) => {
            return Err(e);
        },
    };
    let v = match eval(&t, env) {
        Ok(v) => v,
        Err(e) => {
            return Err(e);
        },
    };
    Ok(crate::printer::pr_str(v, true))
}

/// Resolve a term to a final value against the given environment.
pub fn eval(t: &MalType, env: &mut MalEnv) -> (r: MalResult<MalType>)
    requires
        old(env).wf(),
    ensures
        res_matches(r, eval_spec(term_view(*t), old(env)@).0),
        final(env)@ == eval_spec(term_view(*t), old(env)@).1,
        final(env).wf(),
    decreases t, 2int,
{
    let l = if let MalType::List(l) = t {
        l
    } else {
        return eval_ast(t, env);
    };
    proof {
        lemma_terms_view(l@);
    }
    let ghost tv = terms_view(l@);
    if l.len() == 0 {
        proof {
            assert(tv =~= Seq::<TermV>::empty());
            assert(terms_view(Seq::<MalType>::empty()) =~= Seq::<TermV>::empty());
        }
        return Ok(MalType::List(Vec::new()));
    }
    if let MalType::Symbol(s) = &l[0] {
        proof {
            reveal_strlit("def!");
            reveal_strlit("let*");
            assert("def!"@ =~= def_chars());
            assert("let*"@ =~= let_chars());
        }
        if str_eq(s.as_str(), "def!") {
            assert(tv[0] == TermV::Symbol(def_chars()));
            if l.len() != 3 {
                return Err(
                    MalError::RuntimeError(
                        String::from_str("def! takes a binding target and one value"),
                    ),
                );
            }
            let v = match eval(&l[2], env) {
                Ok(v) => v,
                Err(e) => {
                    return Err(e);
                },
            };
            let copy = v.deep_copy();
            match update_env(&l[1], copy, env) {
                Ok(u) => {
                    return Ok(v);
                },
                Err(e) => {
                    return Err(e);
                },
            }
        } else if str_eq(s.as_str(), "let*") {
            assert(tv[0] == TermV::Symbol(let_chars()));
            if l.len() != 3 {
                return Err(
                    MalError::RuntimeError(
                        String::from_str("let* takes a binding list and one body"),
                    ),
                );
            }
            let bs = match &l[1] {
                MalType::List(bs) => bs,
                MalType::Vector(bs) => bs,
                _ => {
                    return Err(
                        MalError::RuntimeError(
                            String::from_str("let* bindings must be a list or vector"),
                        ),
                    );
                },
            };
            let mut inner = MalEnv::new(Some(env));
            match let_binds(bs, &mut inner) {
                Ok(u) => {},
                Err(e) => {
                    return Err(e);
                },
            }
            return eval(&l[2], &mut inner);
        }
    }
    let vs = match eval_seq(l, env) {
        Ok(vs) => vs,
        Err(e) => {
            return Err(e);
        },
    };
    proof {
        lemma_terms_view(vs@);
    }
    let f = if let MalType::Fun(f) = &vs[0] {
        *f
    } else {
        return Ok(MalType::List(vs));
    };
    let mut args = vs;
    let ghost vsv = terms_view(args@);
    let ghost pre_args = args@;
    args.remove(0);
    proof {
        assert(args@ =~= pre_args.subrange(1, pre_args.len() as int));
        lemma_terms_view(args@);
        lemma_terms_view(pre_args);
        assert forall|j: int| 0 <= j < args@.len() implies terms_view(args@)[j] == vsv.subrange(
            1,
            vsv.len() as int,
        )[j] by {
            assert(terms_view(args@)[j] == term_view(args@[j]));
            assert(args@[j] == pre_args[j + 1]);
            assert(vsv[j + 1] == term_view(pre_args[j + 1]));
        }
        assert(terms_view(args@) =~= vsv.subrange(1, vsv.len() as int));
    }
    crate::env::apply_builtin(f, args)
}

} // verus!
