use vstd::prelude::*;

use crate::common::{LiteralValue, Token, Val};
use crate::error::RuntimeError;

verus! {

/// The scopes of an environment, from the global one (first) to the innermost
/// (last), each a map from names to values.
pub type Scopes = Seq<Map<Seq<char>, Val>>;

/// One name bound to one value.
#[derive(Debug)]
pub struct Binding {
    pub name: String,
    pub value: LiteralValue,
}

/// The map that a list of bindings describes: a later binding of a name hides
/// an earlier one.
pub open spec fn scope_map(entries: Seq<Binding>) -> Map<Seq<char>, Val>
    decreases entries.len(),
{
    if entries.len() == 0 {
        Map::empty()
    } else {
        scope_map(entries.drop_last()).insert(entries.last().name@, entries.last().value@)
    }
}

/// The value of `name` in the nearest scope that binds it.
pub open spec fn env_lookup(env: Scopes, name: Seq<char>) -> Option<Val>
    decreases env.len(),
{
    if env.len() == 0 {
        None
    } else if env.last().contains_key(name) {
        Some(env.last()[name])
    } else {
        env_lookup(env.drop_last(), name)
    }
}

/// The scopes after `name` is rebound to `v` in the nearest scope that binds
/// it; `None` where no scope does.
pub open spec fn env_assign(env: Scopes, name: Seq<char>, v: Val) -> Option<Scopes>
    decreases env.len(),
{
    if env.len() == 0 {
        None
    } else if env.last().contains_key(name) {
        Some(env.update(env.len() - 1, env.last().insert(name, v)))
    } else {
        match env_assign(env.drop_last(), name, v) {
            Some(outer) => Some(outer.push(env.last())),
            None => None,
        }
    }
}

/// The scopes after `name` is bound to `v` in the innermost scope.
pub open spec fn env_define(env: Scopes, name: Seq<char>, v: Val) -> Scopes {
    env.update(env.len() - 1, env.last().insert(name, v))
}

/// `Undefined variable 'NAME'.`
pub open spec fn undefined_message(name: Seq<char>) -> Seq<char> {
    "Undefined variable '"@ + name + "'."@
}

proof fn lemma_scope_absent(entries: Seq<Binding>, name: Seq<char>)
    requires
        forall|j: int| 0 <= j < entries.len() ==> entries[j].name@ != name,
    ensures
        !scope_map(entries).contains_key(name),
    decreases entries.len(),
{
    if entries.len() > 0 {
        lemma_scope_absent(entries.drop_last(), name);
    }
}

proof fn lemma_scope_found(entries: Seq<Binding>, name: Seq<char>, i: int)
    requires
        0 <= i < entries.len(),
        entries[i].name@ == name,
        forall|j: int| i < j < entries.len() ==> entries[j].name@ != name,
    ensures
        scope_map(entries).contains_key(name),
        scope_map(entries)[name] == entries[i].value@,
    decreases entries.len(),
{
    if i < entries.len() - 1 {
        lemma_scope_found(entries.drop_last(), name, i);
    }
}

proof fn lemma_scope_update(entries: Seq<Binding>, name: Seq<char>, i: int, b: Binding)
    requires
        0 <= i < entries.len(),
        entries[i].name@ == name,
        b.name@ == name,
        forall|j: int| i < j < entries.len() ==> entries[j].name@ != name,
    ensures
        scope_map(entries.update(i, b)) == scope_map(entries).insert(name, b.value@),
    decreases entries.len(),
{
    let e2 = entries.update(i, b);
    if i == entries.len() - 1 {
        assert(e2.drop_last() =~= entries.drop_last());
        assert(scope_map(e2) =~= scope_map(entries).insert(name, b.value@));
    } else {
        lemma_scope_update(entries.drop_last(), name, i, b);
        assert(e2.drop_last() =~= entries.drop_last().update(i, b));
        assert(scope_map(e2) =~= scope_map(entries).insert(name, b.value@));
    }
}

/// Where `name` is bound last in `entries`, if anywhere.
fn find_binding(entries: &Vec<Binding>, name: &String) -> (r: Option<usize>)
    ensures
        match r {
            Some(i) => {
                &&& i < entries.len()
                &&& entries@[i as int].name@ == name@
                &&& forall|j: int| i < j < entries.len() ==> entries@[j].name@ != name@
            },
            None => forall|j: int| 0 <= j < entries.len() ==> entries@[j].name@ != name@,
        },
{
    let mut k: usize = entries.len();
    while k > 0
        invariant
            k <= entries.len(),
            forall|j: int| k <= j < entries.len() ==> entries@[j].name@ != name@,
        decreases k,
    {
        k = k - 1;
        if entries[k].name == *name {
            return Some(k);
        }
    }
    None
}

/// A chain of scopes, from the global scope out to the innermost block scope.
/// A lookup or an assignment goes to the nearest scope that binds the name.
#[derive(Debug)]
pub struct Environment {
    globals: Vec<Binding>,
    locals: Vec<Vec<Binding>>,
}

impl View for Environment {
    type V = Scopes;

    closed spec fn view(&self) -> Scopes {
        seq![scope_map(self.globals@)] + self.locals@.map_values(|s: Vec<Binding>| scope_map(s@))
    }
}

impl Environment {
    pub proof fn lemma_nonempty(&self)
        ensures
            self@.len() >= 1,
    {
    }

    proof fn lemma_view(&self)
        ensures
            self@.len() == self.locals@.len() + 1,
            self@[0] == scope_map(self.globals@),
            forall|j: int|
                1 <= j < self@.len() ==> #[trigger] self@[j] == scope_map(self.locals@[j - 1]@),
    {
    }

    /// A fresh, empty scope enclosed by `enclosing`, or a fresh global scope.
    pub fn new(enclosing: Option<Box<Environment>>) -> (r: Environment)
        ensures
            r@ == match enclosing {
                Some(e) => e@.push(Map::empty()),
                None => seq![Map::<Seq<char>, Val>::empty()],
            },
    {
        match enclosing {
            Some(e) => {
                let mut env = *e;
                env.push_scope();
                env
            },
            None => {
                let r = Environment { globals: Vec::new(), locals: Vec::new() };
                assert(r@ =~= seq![Map::<Seq<char>, Val>::empty()]);
                r
            },
        }
    }

    /// Opens a new innermost scope.
    pub fn push_scope(&mut self)
        ensures
            final(self)@ == old(self)@.push(Map::empty()),
    {
        self.locals.push(Vec::new());
        assert(final(self)@ =~= old(self)@.push(Map::empty()));
    }

    /// Closes the innermost scope; the global scope is never closed.
    pub fn pop_scope(&mut self)
        ensures
            old(self)@.len() > 1 ==> final(self)@ == old(self)@.drop_last(),
            old(self)@.len() == 1 ==> final(self)@ == old(self)@,
    {
        if self.locals.len() > 0 {
            self.locals.pop();
            assert(final(self)@ =~= old(self)@.drop_last());
        }
    }

    /// Binds `name` to `value` in the innermost scope, replacing any binding
    /// of it there.
    pub fn define(&mut self, name: Token, value: LiteralValue)
        ensures
            final(self)@ == env_define(old(self)@, name.lexeme@, value@),
    {
        let n = name.lexeme;
        let ghost v = value@;
        let b = Binding { name: n, value };
        if self.locals.len() == 0 {
            match find_binding(&self.globals, &b.name) {
                Some(i) => {
                    proof {
                        lemma_scope_update(self.globals@, b.name@, i as int, b);
                    }
                    self.globals.set(i, b);
                },
                None => {
                    self.globals.push(b);
                    assert(self.globals@.drop_last() =~= old(self).globals@);
                },
            }
            assert(self@ =~= env_define(old(self)@, name.lexeme@, v));
        } else {
            let last = self.locals.len() - 1;
            let mut scope: Vec<Binding> = Vec::new();
            std::mem::swap(&mut scope, &mut self.locals[last]);
            assert(scope@ == old(self).locals@[last as int]@);
            match find_binding(&scope, &b.name) {
                Some(i) => {
                    proof {
                        lemma_scope_update(scope@, b.name@, i as int, b);
                    }
                    scope.set(i, b);
                },
                None => {
                    let ghost before = scope@;
                    scope.push(b);
                    assert(scope@.drop_last() =~= before);
                },
            }
            self.locals.set(last, scope);
            assert(self@ =~= env_define(old(self)@, name.lexeme@, v));
        }
    }

    /// The value of `name` in the nearest scope that binds it.
    pub fn get(&self, name: Token) -> (r: Result<LiteralValue, RuntimeError>)
        ensures
            match env_lookup(self@, name.lexeme@) {
                Some(v) => r is Ok && r->Ok_0@ == v,
                None => r is Err && r->Err_0.message@ == undefined_message(name.lexeme@),
            },
    {
        let n = name.lexeme;
        let mut k: usize = self.locals.len();
        proof {
            self.lemma_view();
            assert(self@.subrange(0, k + 1) =~= self@);
        }
        while k > 0
            invariant
                k <= self.locals.len(),
                n@ == name.lexeme@,
                self@.len() == self.locals@.len() + 1,
                self@[0] == scope_map(self.globals@),
                forall|j: int|
                    1 <= j < self@.len() ==> #[trigger] self@[j] == scope_map(
                        self.locals@[j - 1]@,
                    ),
                env_lookup(self@, n@) == env_lookup(self@.subrange(0, k + 1), n@),
            decreases k,
        {
            let ghost sub = self@.subrange(0, k + 1);
            assert(sub.last() == scope_map(self.locals@[k - 1]@));
            assert(sub.drop_last() =~= self@.subrange(0, k as int));
            match find_binding(&self.locals[k - 1], &n) {
                Some(i) => {
                    proof {
                        lemma_scope_found(self.locals@[k - 1]@, n@, i as int);
                        assert(sub.last().contains_key(n@));
                        assert(env_lookup(sub, n@) == Some(sub.last()[n@]));
                    }
                    let r = self.locals[k - 1][i].value.clone();
                    assert(r@ == sub.last()[n@]);
                    return Ok(r);
                },
                None => {
                    proof {
                        lemma_scope_absent(self.locals@[k - 1]@, n@);
                    }
                },
            }
            k = k - 1;
        }
        let ghost sub = self@.subrange(0, 1);
        assert(sub.drop_last() =~= Seq::<Map<Seq<char>, Val>>::empty());
        assert(sub.last() == scope_map(self.globals@));
        assert(env_lookup(sub.drop_last(), n@) is None);
        match find_binding(&self.globals, &n) {
            Some(i) => {
                proof {
                    lemma_scope_found(self.globals@, n@, i as int);
                }
                Ok(self.globals[i].value.clone())
            },
            None => {
                proof {
                    lemma_scope_absent(self.globals@, n@);
                }
                Err(RuntimeError { message: undefined_variable(&n) })
            },
        }
    }

    /// Rebinds `name` to `value` in the nearest scope that binds it; an error
    /// where no scope does, leaving the environment as it was.
    pub fn assign(&mut self, name: Token, value: LiteralValue) -> (r: Result<(), RuntimeError>)
        ensures
            match env_assign(old(self)@, name.lexeme@, value@) {
                Some(e) => r is Ok && final(self)@ == e,
                None => r is Err && r->Err_0.message@ == undefined_message(name.lexeme@)
                    && final(self)@ == old(self)@,
            },
    {
        let n = name.lexeme;
        let ghost v = value@;
        let ghost env0 = self@;
        let mut k: usize = self.locals.len();
        proof {
            self.lemma_view();
        }
        while k > 0
            invariant
                k <= self.locals.len(),
                n@ == name.lexeme@,
                env0.len() == self.locals@.len() + 1,
                v == value@,
                env0[0] == scope_map(self.globals@),
                forall|j: int|
                    1 <= j < env0.len() ==> #[trigger] env0[j] == scope_map(
                        self.locals@[j - 1]@,
                    ),
                self == old(self),
                self@ == env0,
                forall|j: int| k + 1 <= j < env0.len() ==> !env0[j].contains_key(n@),
            decreases k,
        {
            match find_binding(&self.locals[k - 1], &n) {
                Some(i) => {
                    let b = Binding { name: n, value };
                    let mut scope: Vec<Binding> = Vec::new();
                    std::mem::swap(&mut scope, &mut self.locals[k - 1]);
                    proof {
                        lemma_scope_found(scope@, n@, i as int);
                        lemma_scope_update(scope@, n@, i as int, b);
                        lemma_assign_at(env0, n@, v, k as int);
                    }
                    scope.set(i, b);
                    self.locals.set(k - 1, scope);
                    proof {
                        self.lemma_view();
                        let e1 = env0.update(k as int, env0[k as int].insert(n@, v));
                        assert forall|j: int| 0 <= j < e1.len() implies self@[j] == e1[j] by {
                            if j >= 1 && j != k {
                                assert(self.locals@[j - 1] == old(self).locals@[j - 1]);
                            }
                        }
                        assert(self@ =~= e1);
                    }
                    return Ok(());
                },
                None => {
                    proof {
                        lemma_scope_absent(self.locals@[k - 1]@, n@);
                    }
                },
            }
            k = k - 1;
        }
        match find_binding(&self.globals, &n) {
            Some(i) => {
                let b = Binding { name: n, value };
                proof {
                    lemma_scope_found(self.globals@, n@, i as int);
                    lemma_scope_update(self.globals@, n@, i as int, b);
                    lemma_assign_at(env0, n@, v, 0);
                }
                self.globals.set(i, b);
                assert(self@ =~= env0.update(0, env0[0].insert(n@, v)));
                Ok(())
            },
            None => {
                proof {
                    lemma_scope_absent(self.globals@, n@);
                    lemma_assign_none(env0, n@, v);
                }
                Err(RuntimeError { message: undefined_variable(&n) })
            },
        }
    }
}

proof fn lemma_assign_at(env: Scopes, name: Seq<char>, v: Val, k: int)
    requires
        0 <= k < env.len(),
        env[k].contains_key(name),
        forall|j: int| k < j < env.len() ==> !env[j].contains_key(name),
    ensures
        env_assign(env, name, v) == Some(env.update(k, env[k].insert(name, v))),
    decreases env.len(),
{
    if k < env.len() - 1 {
        lemma_assign_at(env.drop_last(), name, v, k);
        assert(env.drop_last().update(k, env[k].insert(name, v)).push(env.last()) =~= env.update(
            k,
            env[k].insert(name, v),
        ));
    }
}

proof fn lemma_assign_none(env: Scopes, name: Seq<char>, v: Val)
    requires
        forall|j: int| 0 <= j < env.len() ==> !env[j].contains_key(name),
    ensures
        env_assign(env, name, v) is None,
    decreases env.len(),
{
    if env.len() > 0 {
        lemma_assign_none(env.drop_last(), name, v);
    }
}

fn undefined_variable(name: &String) -> (r: String)
    ensures
        r@ == undefined_message(name@),
{
    let mut m = String::new();
    m.append("Undefined variable '");
    m.append(name.as_str());
    m.append("'.");
    assert(m@ =~= undefined_message(name@));
    m
}

impl Default for Environment {
    /// An environment holding only an empty global scope.
    fn default() -> (r: Environment)
        ensures
            r@ == seq![Map::<Seq<char>, Val>::empty()],
    {
        Environment::new(None)
    }
}

/// Assigning never changes how many scopes there are.
pub proof fn lemma_assign_keeps_depth(env: Scopes, name: Seq<char>, v: Val)
    ensures
        env_assign(env, name, v) matches Some(e) ==> e.len() == env.len(),
    decreases env.len(),
{
    if env.len() > 0 && !env.last().contains_key(name) {
        lemma_assign_keeps_depth(env.drop_last(), name, v);
    }
}

/// An assignment followed by a lookup of the same name gives the assigned
/// value exactly when some scope already bound the name; where none did, the
/// assignment fails, and so does the lookup.
pub proof fn law_assign_then_get(env: Scopes, name: Seq<char>, v: Val)
    ensures
        env_lookup(env, name) is Some ==> (env_assign(env, name, v) matches Some(e) && env_lookup(
            e,
            name,
        ) == Some(v)),
        env_lookup(env, name) is None ==> env_assign(env, name, v) is None,
    decreases env.len(),
{
    if env.len() > 0 {
        if env.last().contains_key(name) {
            let e = env.update(env.len() - 1, env.last().insert(name, v));
            assert(e.last() == env.last().insert(name, v));
        } else {
            law_assign_then_get(env.drop_last(), name, v);
            if let Some(outer) = env_assign(env.drop_last(), name, v) {
                let e = outer.push(env.last());
                assert(e.drop_last() =~= outer);
            }
        }
    }
}

} // verus!
