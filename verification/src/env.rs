//! The environment model: a chain of scope frames mapping names to terms,
//! searched innermost-first, plus the native functions the root frame starts
//! with.
//!
//! A frame is an ordered list of bindings whose abstract value is the map in
//! which a later binding for a name shadows an earlier one. The whole chain is
//! owned by one `MalEnv` value, innermost frame last.

use vstd::prelude::*;

use crate::types::Builtin;
use crate::types::EntryV;
use crate::types::MalType;
use crate::types::MapEntry;
use crate::types::TermV;
use crate::types::entries_view;
use crate::types::lemma_entries_view;
use crate::types::lemma_terms_view;
use crate::types::terms_view;
use crate::types::MalError;
use crate::types::MalList;
use crate::types::MalResult;
use crate::types::term_view;

verus! {

/// Two binding lists with the same abstract entries denote the same map.
proof fn lemma_frame_map_congruence(a: Seq<MapEntry>, b: Seq<MapEntry>)
    requires
        entries_view(a) == entries_view(b),
    ensures
        frame_map(a) == frame_map(b),
    decreases a.len(),
{
    lemma_entries_view(a);
    lemma_entries_view(b);
    if a.len() > 0 {
        lemma_entries_view(a.drop_last());
        lemma_entries_view(b.drop_last());
        assert forall|i: int|
            0 <= i < a.len() - 1 implies entries_view(a.drop_last())[i] == entries_view(
            b.drop_last(),
        )[i] by {
            assert(a.drop_last()[i] == a[i]);
            assert(b.drop_last()[i] == b[i]);
            assert(entries_view(a.drop_last())[i] == (EntryV {
                key: a.drop_last()[i].key@,
                val: term_view(a.drop_last()[i].val),
            }));
            assert(entries_view(b.drop_last())[i] == (EntryV {
                key: b.drop_last()[i].key@,
                val: term_view(b.drop_last()[i].val),
            }));
            assert(entries_view(a)[i] == (EntryV { key: a[i].key@, val: term_view(a[i].val) }));
            assert(entries_view(b)[i] == (EntryV { key: b[i].key@, val: term_view(b[i].val) }));
        }
        assert(entries_view(a.drop_last()) =~= entries_view(b.drop_last()));
        lemma_frame_map_congruence(a.drop_last(), b.drop_last());
        assert(entries_view(a)[a.len() - 1] == (EntryV {
            key: a.last().key@,
            val: term_view(a.last().val),
        }));
        assert(entries_view(b)[b.len() - 1] == (EntryV {
            key: b.last().key@,
            val: term_view(b.last().val),
        }));
    }
}

/// The map a frame's bindings denote: a later binding for a name wins.
pub open spec fn frame_map(s: Seq<MapEntry>) -> Map<Seq<char>, TermV>
    decreases s.len(),
{
    if s.len() == 0 {
        Map::empty()
    } else {
        frame_map(s.drop_last()).insert(s.last().key@, term_view(s.last().val))
    }
}

/// Chained lookup over a stack of frames, innermost (last) first.
pub open spec fn env_lookup(env: Seq<Map<Seq<char>, TermV>>, key: Seq<char>) -> Option<TermV>
    decreases env.len(),
{
    if env.len() == 0 {
        None
    } else if env.last().contains_key(key) {
        Some(env.last()[key])
    } else {
        env_lookup(env.drop_last(), key)
    }
}

/// A chain of scope frames, innermost last. Always holds at least one frame.
#[derive(Debug)]
pub struct MalEnv {
    frames: Vec<Vec<MapEntry>>,
}

impl View for MalEnv {
    type V = Seq<Map<Seq<char>, TermV>>;

    closed spec fn view(&self) -> Seq<Map<Seq<char>, TermV>> {
        Seq::new(self.frames@.len(), |i: int| frame_map(self.frames[i]@))
    }
}

/// Search one frame's bindings for a name, newest binding first.
fn frame_get<'a>(f: &'a Vec<MapEntry>, key: &str) -> (r: Option<&'a MalType>)
    ensures
        match r {
            Some(v) => frame_map(f@).contains_key(key@) && frame_map(f@)[key@] == term_view(*v),
            None => !frame_map(f@).contains_key(key@),
        },
{
    let mut j: usize = f.len();
    proof {
        assert(f@.subrange(0, f@.len() as int) =~= f@);
    }
    while j > 0
        invariant
            j <= f@.len(),
            frame_map(f@).contains_key(key@) == frame_map(f@.subrange(0, j as int)).contains_key(
                key@,
            ),
            frame_map(f@).contains_key(key@) ==> frame_map(f@)[key@] == frame_map(
                f@.subrange(0, j as int),
            )[key@],
        decreases j,
    {
        proof {
            assert(f@.subrange(0, j as int).drop_last() =~= f@.subrange(0, j as int - 1));
            assert(f@.subrange(0, j as int).last() == f@[j as int - 1]);
        }
        if crate::types::str_eq(f[j - 1].key.as_str(), key) {
            return Some(&f[j - 1].val);
        }
        j = j - 1;
    }
    proof {
        assert(f@.subrange(0, 0) =~= Seq::<MapEntry>::empty());
    }
    None
}

impl MalEnv {
    /// Every environment holds at least one frame: the current one.
    pub open spec fn wf(&self) -> bool {
        self@.len() >= 1
    }

    /// A fresh environment: one empty frame on top of a copy of the frames of
    /// `outer`, or on nothing. Bindings made here never touch `outer`.
    pub fn new(outer: Option<&MalEnv>) -> (r: MalEnv)
        ensures
            r@ == match outer {
                Some(e) => e@.push(Map::<Seq<char>, TermV>::empty()),
                None => seq![Map::<Seq<char>, TermV>::empty()],
            },
            r.wf(),
    {
        let mut frames: Vec<Vec<MapEntry>> = Vec::new();
        if let Some(e) = outer {
            let mut i: usize = 0;
            while i < e.frames.len()
                invariant
                    i <= e.frames@.len(),
                    frames@.len() == i,
                    forall|k: int|
                        0 <= k < i ==> frame_map(#[trigger] frames@[k]@) == frame_map(
                            e.frames@[k]@,
                        ),
                decreases e.frames@.len() - i,
            {
                let copied = crate::types::copy_entries(&e.frames[i]);
                proof {
                    lemma_frame_map_congruence(copied@, e.frames@[i as int]@);
                }
                frames.push(copied);
                i = i + 1;
            }
        }
        frames.push(Vec::new());
        let r = MalEnv { frames };
        proof {
            assert(frame_map(Seq::<MapEntry>::empty()) =~= Map::<Seq<char>, TermV>::empty());
            match outer {
                Some(e) => {
                    assert(r@ =~= e@.push(Map::<Seq<char>, TermV>::empty()));
                },
                None => {
                    assert(r@ =~= seq![Map::<Seq<char>, TermV>::empty()]);
                },
            }
        }
        r
    }

    /// The root environment, pre-populated with the built-in functions.
    pub fn default() -> (r: MalEnv)
        ensures
            r@ == seq![base_bindings()],
            r.wf(),
    {
        let mut env = MalEnv::new(None);
        env.set(String::from_str("+"), MalType::Fun(Builtin::Add));
        env.set(String::from_str("-"), MalType::Fun(Builtin::Sub));
        env.set(String::from_str("*"), MalType::Fun(Builtin::Mul));
        env.set(String::from_str("/"), MalType::Fun(Builtin::Div));
        proof {
            reveal_strlit("+");
            reveal_strlit("-");
            reveal_strlit("*");
            reveal_strlit("/");
            assert("+"@ =~= seq!['+']);
            assert("-"@ =~= seq!['-']);
            assert("*"@ =~= seq!['*']);
            assert("/"@ =~= seq!['/']);
            assert(env@ =~= seq![base_bindings()]);
        }
        env
    }

    /// Insert or overwrite a binding in the current (innermost) frame only.
    pub fn set(&mut self, key: String, val: MalType)
        requires
            old(self).wf(),
        ensures
            final(self)@ == old(self)@.update(
                old(self)@.len() - 1,
                old(self)@.last().insert(key@, term_view(val)),
            ),
            final(self).wf(),
    {
        let ghost old_frames = self.frames@;
        let mut top = self.frames.pop().unwrap();
        let ghost old_top = top@;
        top.push(MapEntry { key, val });
        proof {
            assert(top@.drop_last() =~= old_top);
        }
        self.frames.push(top);
        proof {
            assert(self.frames@.len() == old_frames.len());
            assert(forall|k: int|
                0 <= k < old_frames.len() - 1 ==> self.frames@[k] == old_frames[k]);
            assert(frame_map(self.frames@.last()@) == frame_map(old_top).insert(
                key@,
                term_view(val),
            ));
            assert(old(self)@.last() == frame_map(old_top));
            assert(self@ =~= old(self)@.update(
                old(self)@.len() - 1,
                old(self)@.last().insert(key@, term_view(val)),
            ));
        }
    }

    /// Chained existence check: is the name bound in this frame or any
    /// enclosing one?
    pub fn find(&self, key: &str) -> (r: bool)
        ensures
            r == (env_lookup(self@, key@) is Some),
    {
        let mut i: usize = self.frames.len();
        proof {
            assert(self@.subrange(0, self@.len() as int) =~= self@);
        }
        while i > 0
            invariant
                i <= self.frames@.len(),
                env_lookup(self@, key@) == env_lookup(self@.subrange(0, i as int), key@),
            decreases i,
        {
            proof {
                assert(self@.subrange(0, i as int).drop_last() =~= self@.subrange(0, i as int - 1));
                assert(self@.subrange(0, i as int).last() == frame_map(self.frames[i as int - 1]@));
            }
            if frame_get(&self.frames[i - 1], key).is_some() {
                return true;
            }
            i = i - 1;
        }
        proof {
            assert(self@.subrange(0, 0) =~= Seq::<Map<Seq<char>, TermV>>::empty());
        }
        false
    }

    /// Chained lookup: the value bound nearest to the current frame, if any.
    pub fn get(&self, key: &String) -> (r: Option<MalType>)
        ensures
            match r {
                Some(v) => env_lookup(self@, key@) == Some(v@),
                None => env_lookup(self@, key@) is None,
            },
    {
        let mut i: usize = self.frames.len();
        proof {
            assert(self@.subrange(0, self@.len() as int) =~= self@);
        }
        while i > 0
            invariant
                i <= self.frames@.len(),
                env_lookup(self@, key@) == env_lookup(self@.subrange(0, i as int), key@),
            decreases i,
        {
            proof {
                assert(self@.subrange(0, i as int).drop_last() =~= self@.subrange(0, i as int - 1));
                assert(self@.subrange(0, i as int).last() == frame_map(self.frames[i as int - 1]@));
            }
            if let Some(v) = frame_get(&self.frames[i - 1], key.as_str()) {
                return Some(v.deep_copy());
            }
            i = i - 1;
        }
        proof {
            assert(self@.subrange(0, 0) =~= Seq::<Map<Seq<char>, TermV>>::empty());
        }
        None
    }
}

/// Left fold of addition over the arguments, skipping non-integers, failing at
/// the first step whose running total leaves the fixed-width range.
pub open spec fn add_steps(args: Seq<TermV>, acc: int) -> Option<int>
    decreases args.len(),
{
    if args.len() == 0 {
        Some(acc)
    } else {
        let a2 = match args[0] {
            TermV::Int(i) => acc + i,
            _ => acc,
        };
        if a2 < i32::MIN as int || a2 > i32::MAX as int {
            None
        } else {
            add_steps(args.subrange(1, args.len() as int), a2)
        }
    }
}

/// Left fold of multiplication over the arguments, skipping non-integers,
/// failing at the first step whose running product leaves the range.
pub open spec fn mul_steps(args: Seq<TermV>, acc: int) -> Option<int>
    decreases args.len(),
{
    if args.len() == 0 {
        Some(acc)
    } else {
        let a2 = match args[0] {
            TermV::Int(i) => acc * i,
            _ => acc,
        };
        if a2 < i32::MIN as int || a2 > i32::MAX as int {
            None
        } else {
            mul_steps(args.subrange(1, args.len() as int), a2)
        }
    }
}

/// Division truncated toward zero, as the host's integer division behaves.
pub open spec fn trunc_div(x: int, d: int) -> int {
    if x == 0 {
        0
    } else if x > 0 && d > 0 {
        x / d
    } else if x < 0 && d < 0 {
        (x * -1) / (d * -1)
    } else if x < 0 {
        ((x * -1) / d) * -1
    } else {
        (x / (d * -1)) * -1
    }
}

/// What applying a built-in function to evaluated arguments yields: addition
/// and multiplication fold over all arguments; subtraction and division demand
/// exactly two integers; any overflow, wrong arity, wrong argument type, or
/// division by zero is a runtime failure.
pub open spec fn apply_spec(f: Builtin, args: Seq<TermV>) -> Result<TermV, crate::types::ErrV> {
    match f {
        Builtin::Add => match add_steps(args, 0) {
            Some(v) => Ok(TermV::Int(v as i32)),
            None => Err(crate::types::ErrV::Runtime),
        },
        Builtin::Mul => match mul_steps(args, 1) {
            Some(v) => Ok(TermV::Int(v as i32)),
            None => Err(crate::types::ErrV::Runtime),
        },
        Builtin::Sub => if args.len() == 2 {
            match (args[0], args[1]) {
                (TermV::Int(a), TermV::Int(b)) => {
                    let d = a - b;
                    if d < i32::MIN as int || d > i32::MAX as int {
                        Err(crate::types::ErrV::Runtime)
                    } else {
                        Ok(TermV::Int(d as i32))
                    }
                },
                _ => Err(crate::types::ErrV::Runtime),
            }
        } else {
            Err(crate::types::ErrV::Runtime)
        },
        Builtin::Div => if args.len() == 2 {
            match (args[0], args[1]) {
                (TermV::Int(a), TermV::Int(b)) => {
                    if b == 0 {
                        Err(crate::types::ErrV::Runtime)
                    } else {
                        let q = trunc_div(a as int, b as int);
                        if q < i32::MIN as int || q > i32::MAX as int {
                            Err(crate::types::ErrV::Runtime)
                        } else {
                            Ok(TermV::Int(q as i32))
                        }
                    }
                },
                _ => Err(crate::types::ErrV::Runtime),
            }
        } else {
            Err(crate::types::ErrV::Runtime)
        },
    }
}

/// Sum every integer argument, skipping arguments of any other type; a
/// running total that leaves the fixed-width range is a runtime failure.
pub fn default_add(args: MalList) -> (r: MalResult<MalType>)
    ensures
        crate::types::res_matches(r, apply_spec(Builtin::Add, terms_view(args@))),
{
    proof {
        lemma_terms_view(args@);
        assert(terms_view(args@).subrange(0, terms_view(args@).len() as int) =~= terms_view(
            args@,
        ));
    }
    let ghost tv = terms_view(args@);
    let mut acc: i32 = 0;
    let mut i: usize = 0;
    while i < args.len()
        invariant
            i <= args@.len(),
            tv == terms_view(args@),
            tv.len() == args@.len(),
            forall|j: int| 0 <= j < args@.len() ==> tv[j] == term_view(#[trigger] args@[j]),
            add_steps(tv, 0) == add_steps(tv.subrange(i as int, tv.len() as int), acc as int),
        decreases args@.len() - i,
    {
        let ghost pre = tv.subrange(i as int, tv.len() as int);
        proof {
            assert(pre.subrange(1, pre.len() as int) =~= tv.subrange(
                i as int + 1,
                tv.len() as int,
            ));
            assert(pre[0] == term_view(args@[i as int]));
        }
        if let MalType::Int(n) = &args[i] {
            match acc.checked_add(*n) {
                Some(a2) => {
                    acc = a2;
                },
                None => {
                    return Err(MalError::RuntimeError(String::from_str(
                        "(+) overflowed a fixed-width integer",
                    )));
                },
            }
        }
        i = i + 1;
    }
    proof {
        assert(tv.subrange(tv.len() as int, tv.len() as int) =~= Seq::<TermV>::empty());
    }
    Ok(MalType::Int(acc))
}

/// Multiply every integer argument (non-integers are skipped); a running
/// product that leaves the fixed-width range is a runtime failure.
pub fn default_mul(args: MalList) -> (r: MalResult<MalType>)
    ensures
        crate::types::res_matches(r, apply_spec(Builtin::Mul, terms_view(args@))),
{
    proof {
        lemma_terms_view(args@);
        assert(terms_view(args@).subrange(0, terms_view(args@).len() as int) =~= terms_view(
            args@,
        ));
    }
    let ghost tv = terms_view(args@);
    let mut acc: i32 = 1;
    let mut i: usize = 0;
    while i < args.len()
        invariant
            i <= args@.len(),
            tv == terms_view(args@),
            tv.len() == args@.len(),
            forall|j: int| 0 <= j < args@.len() ==> tv[j] == term_view(#[trigger] args@[j]),
            mul_steps(tv, 1) == mul_steps(tv.subrange(i as int, tv.len() as int), acc as int),
        decreases args@.len() - i,
    {
        let ghost pre = tv.subrange(i as int, tv.len() as int);
        proof {
            assert(pre.subrange(1, pre.len() as int) =~= tv.subrange(
                i as int + 1,
                tv.len() as int,
            ));
            assert(pre[0] == term_view(args@[i as int]));
        }
        if let MalType::Int(n) = &args[i] {
            match acc.checked_mul(*n) {
                Some(a2) => {
                    acc = a2;
                },
                None => {
                    return Err(MalError::RuntimeError(String::from_str(
                        "(*) overflowed a fixed-width integer",
                    )));
                },
            }
        }
        i = i + 1;
    }
    proof {
        assert(tv.subrange(tv.len() as int, tv.len() as int) =~= Seq::<TermV>::empty());
    }
    Ok(MalType::Int(acc))
}

/// Subtract: exactly two integer arguments, or a runtime failure.
pub fn default_sub(args: MalList) -> (r: MalResult<MalType>)
    ensures
        crate::types::res_matches(r, apply_spec(Builtin::Sub, terms_view(args@))),
{
    proof {
        lemma_terms_view(args@);
    }
    if args.len() == 2 {
        if let MalType::Int(a) = &args[0] {
            if let MalType::Int(b) = &args[1] {
                match a.checked_sub(*b) {
                    Some(d) => {
                        return Ok(MalType::Int(d));
                    },
                    None => {
                        return Err(MalError::RuntimeError(String::from_str(
                            "(-) overflowed a fixed-width integer",
                        )));
                    },
                }
            }
        }
    }
    Err(MalError::RuntimeError(String::from_str("(-) takes exactly two integers")))
}

/// Divide, truncating toward zero: exactly two integer arguments with a
/// non-zero divisor, or a runtime failure.
pub fn default_div(args: MalList) -> (r: MalResult<MalType>)
    ensures
        crate::types::res_matches(r, apply_spec(Builtin::Div, terms_view(args@))),
{
    proof {
        lemma_terms_view(args@);
    }
    if args.len() == 2 {
        if let MalType::Int(a) = &args[0] {
            if let MalType::Int(b) = &args[1] {
                match a.checked_div(*b) {
                    Some(q) => {
                        return Ok(MalType::Int(q));
                    },
                    None => {
                        return Err(MalError::RuntimeError(String::from_str(
                            "(/) divided by zero or overflowed",
                        )));
                    },
                }
            }
        }
    }
    Err(MalError::RuntimeError(String::from_str("(/) takes exactly two integers")))
}

/// Apply a built-in function to its (already evaluated) arguments.
pub fn apply_builtin(f: Builtin, args: MalList) -> (r: MalResult<MalType>)
    ensures
        crate::types::res_matches(r, apply_spec(f, terms_view(args@))),
{
    match f {
        Builtin::Add => default_add(args),
        Builtin::Sub => default_sub(args),
        Builtin::Mul => default_mul(args),
        Builtin::Div => default_div(args),
    }
}

impl crate::types::MalHashMap {
    /// The value a map term holds for a textual key: its pair list read as a
    /// map in which a later pair for a key shadows an earlier one. The
    /// contract speaks only of that map, so where two pair lists denote the
    /// same map, every lookup agrees.
    pub fn lookup<'a>(&'a self, key: &str) -> (r: Option<&'a MalType>)
        ensures
            match r {
                Some(v) => frame_map(self.entries@).contains_key(key@) && frame_map(
                    self.entries@,
                ).index(key@) == term_view(*v),
                None => !frame_map(self.entries@).contains_key(key@),
            },
    {
        frame_get(&self.entries, key)
    }
}

/// Exchanging two adjacent pairs with distinct keys leaves the map a pair
/// list denotes unchanged: pair order matters only between pairs that bind
/// the same key.
pub proof fn lemma_map_swap_irrelevant(es: Seq<MapEntry>, i: int)
    requires
        0 <= i,
        i + 1 < es.len(),
        es[i].key@ != es[i + 1].key@,
    ensures
        frame_map(es.update(i, es[i + 1]).update(i + 1, es[i])) == frame_map(es),
    decreases es.len(),
{
    let sw = es.update(i, es[i + 1]).update(i + 1, es[i]);
    if i + 2 == es.len() {
        assert(sw.drop_last().drop_last() =~= es.drop_last().drop_last());
        let base = frame_map(es.drop_last().drop_last());
        assert(sw.drop_last().last() == es[i + 1]);
        assert(sw.last() == es[i]);
        assert(es.drop_last().last() == es[i]);
        assert(es.last() == es[i + 1]);
        let k1 = es[i].key@;
        let v1 = term_view(es[i].val);
        let k2 = es[i + 1].key@;
        let v2 = term_view(es[i + 1].val);
        assert(sw.len() == es.len());
        assert(frame_map(sw.drop_last()) == frame_map(sw.drop_last().drop_last()).insert(k2, v2));
        assert(frame_map(sw) == frame_map(sw.drop_last()).insert(k1, v1));
        assert(frame_map(sw) == base.insert(k2, v2).insert(k1, v1));
        assert(frame_map(es.drop_last()) == frame_map(es.drop_last().drop_last()).insert(k1, v1));
        assert(frame_map(es) == frame_map(es.drop_last()).insert(k2, v2));
        assert(frame_map(es) == base.insert(k1, v1).insert(k2, v2));
        assert(base.insert(k2, v2).insert(k1, v1) =~= base.insert(k1, v1).insert(k2, v2));
    } else {
        assert(sw.drop_last() =~= es.drop_last().update(i, es[i + 1]).update(i + 1, es[i]));
        lemma_map_swap_irrelevant(es.drop_last(), i);
        assert(sw.last() == es.last());
        assert(frame_map(sw) == frame_map(sw.drop_last()).insert(
            sw.last().key@,
            term_view(sw.last().val),
        ));
    }
}

/// What the root environment binds: the four built-in functions.
pub open spec fn base_bindings() -> Map<Seq<char>, TermV> {
    Map::empty().insert(seq!['+'], TermV::Fun(Builtin::Add)).insert(
        seq!['-'],
        TermV::Fun(Builtin::Sub),
    ).insert(seq!['*'], TermV::Fun(Builtin::Mul)).insert(seq!['/'], TermV::Fun(Builtin::Div))
}

} // verus!
