//! Environments: frames of bindings from names to objects, looked up from the
//! innermost frame outwards.
use vstd::prelude::*;
use vstd::hash_map::StringHashMap;
use crate::object::{Func, LispObject, LispObjectKind, PrimitiveFn, SExpr};

verus! {

/// The bindings of one frame.
pub type Frame = Map<Seq<char>, LispObject>;

/// Looks a name up in frames, innermost first: the binding of the first frame
/// that binds it.
pub open spec fn lookup(frames: Seq<Frame>, key: Seq<char>) -> Option<LispObject>
    decreases frames.len(),
{
    if frames.len() == 0 {
        None
    } else if frames[0].contains_key(key) {
        Some(frames[0][key])
    } else {
        lookup(frames.drop_first(), key)
    }
}

/// A frame of bindings with an optional parent (enclosing) environment. An
/// environment without a parent is the global one.
///
/// A child borrows its parent: several children can share one parent, each
/// always sees the parent's bindings as they are, and the parent cannot be
/// changed while a child of it exists.
pub struct Environment<'a> {
    parent: Option<&'a Environment<'a>>,
    values: StringHashMap<LispObject>,
}

impl<'a> Environment<'a> {
    /// The frames of the environment, its own first, then its parent's.
    pub closed spec fn frames(self) -> Seq<Frame>
        decreases self,
    {
        match self.parent {
            Some(p) => seq![self.values@] + p.frames(),
            None => seq![self.values@],
        }
    }

    pub proof fn lemma_frames_nonempty(self)
        ensures
            self.frames().len() >= 1,
    {
    }
}

impl<'a> View for Environment<'a> {
    type V = Seq<Frame>;

    open spec fn view(&self) -> Seq<Frame> {
        self.frames()
    }
}

/// An environment, as functions take and return it.
pub type Env<'a> = Environment<'a>;

/// A new, empty environment whose parent is `parent`.
///
/// The new environment shares its parent: it looks names up in the parent as
/// the parent is, and binding names in it never changes the parent.
pub fn new_env<'a>(parent: &'a Env<'a>) -> (env: Env<'a>)
    ensures
        env@ == seq![Frame::empty()] + parent@,
{
    Environment { parent: Some(parent), values: StringHashMap::new() }
}

/// The frames of the global environment: `+` bound to the addition
/// primitive, and the symbol `nil` bound to NIL.
pub open spec fn global_frames() -> Seq<Frame> {
    seq![
        Frame::empty().insert("+"@, LispObject { kind: LispObjectKind::Func(Func::Primitive(PrimitiveFn::Add)) }).insert(
            "nil"@,
            LispObject { kind: LispObjectKind::Nil },
        ),
    ]
}

/// The global environment binds exactly two names: `+`, to the addition
/// primitive, and `nil`, to NIL. Every other name is unbound in it.
pub proof fn law_global_env_binds_only_plus_and_nil(k: Seq<char>)
    ensures
        k == "+"@ ==> (lookup(global_frames(), k) matches Some(v) && v@ == SExpr::Func(Func::Primitive(PrimitiveFn::Add))),
        k == "nil"@ ==> (lookup(global_frames(), k) matches Some(v) && v@ == SExpr::Nil),
        k != "+"@ && k != "nil"@ ==> lookup(global_frames(), k) is None,
{
    reveal_strlit("+");
    reveal_strlit("nil");
    assert("+"@.len() == 1);
    assert("nil"@.len() == 3);
    assert("+"@ != "nil"@);
    let g = global_frames();
    assert(g.len() == 1);
    assert(g.drop_first().len() == 0);
    assert(lookup(g.drop_first(), k) is None);
    assert(g[0].dom() =~= set!["+"@, "nil"@]);
}

/// The global environment: no parent, `+` bound to the addition primitive,
/// and `nil` bound to NIL (so the symbol `nil` evaluates to NIL).
pub fn new_global_env() -> (env: Env<'static>)
    ensures
        env@ == global_frames(),
{
    let mut env = Environment { parent: None, values: StringHashMap::new() };
    env.set("+", LispObject::new_primitive(PrimitiveFn::Add));
    env.set("nil", LispObject::new_nil());
    proof {
        assert(env@ =~= global_frames());
    }
    env
}

impl<'a> Environment<'a> {
    /// Binds `key` to `value` in this environment's own frame.
    pub fn set(&mut self, key: &str, value: LispObject)
        ensures
            final(self)@ == old(self)@.update(0, old(self)@[0].insert(key@, value)),
    {
        let ghost v = value;
        self.values.insert(key.to_owned(), value);
        proof {
            assert(final(self)@ =~= old(self)@.update(0, old(self)@[0].insert(key@, v)));
        }
    }

    /// The binding of `key` in this environment's own frame.
    pub fn get(&self, key: &str) -> (r: Option<LispObject>)
        ensures
            r == (if self@[0].contains_key(key@) {
                Some(self@[0][key@])
            } else {
                None
            }),
    {
        match self.values.get(key) {
            Some(v) => Some(v.clone()),
            None => None,
        }
    }

    /// Whether this is the global environment (it has no parent).
    pub fn is_global(&self) -> (b: bool)
        ensures
            b == (self@.len() == 1),
    {
        proof {
            match &self.parent {
                Some(p) => p.lemma_frames_nonempty(),
                None => {},
            }
        }
        self.parent.is_none()
    }

    /// The binding of `key` in this environment, or else in its parent, and
    /// so on outwards.
    pub fn hierarchical_get(&self, key: &str) -> (r: Option<LispObject>)
        ensures
            r == lookup(self@, key@),
        decreases self,
    {
        proof {
            self.lemma_frames_nonempty();
            assert(self@[0] == self.values@);
        }
        match self.get(key) {
            Some(v) => {
                assert(Some(v) == lookup(self@, key@));
                Some(v)
            },
            None => match &self.parent {
                Some(p) => {
                    let r = p.hierarchical_get(key);
                    proof {
                        assert(self@.drop_first() =~= p@);
                        assert(!self@[0].contains_key(key@));
                        assert(lookup(self@, key@) == lookup(self@.drop_first(), key@));
                    }
                    r
                },
                None => {
                    proof {
                        assert(self@.drop_first().len() == 0);
                        assert(lookup(self@, key@) == lookup(self@.drop_first(), key@));
                    }
                    None
                },
            },
        }
    }
}

/// Binding a name in the innermost frame makes it look up to that value,
/// whatever outer frames bind it to.
pub proof fn law_lookup_after_set(frames: Seq<Frame>, key: Seq<char>, value: LispObject)
    requires
        frames.len() >= 1,
    ensures
        lookup(frames.update(0, frames[0].insert(key, value)), key) == Some(value),
{
}

/// Binding a name leaves the lookup of every other name unchanged.
pub proof fn law_set_keeps_other_names(frames: Seq<Frame>, key: Seq<char>, value: LispObject, other: Seq<char>)
    requires
        frames.len() >= 1,
        other != key,
    ensures
        lookup(frames.update(0, frames[0].insert(key, value)), other) == lookup(frames, other),
{
    assert(frames.update(0, frames[0].insert(key, value)).drop_first() =~= frames.drop_first());
}

/// A new child environment sees exactly what its parent sees.
pub proof fn law_child_sees_parent(parent: Seq<Frame>, key: Seq<char>)
    ensures
        lookup(seq![Frame::empty()] + parent, key) == lookup(parent, key),
{
    assert((seq![Frame::empty()] + parent).drop_first() =~= parent);
}

} // verus!
