//! Interned names. A symbol is a handle on one shared copy of a name; two
//! symbols are the same symbol when they share that copy, whatever the text.

use std::rc::Rc;
use std::rc::Weak;
use vstd::prelude::*;
use vstd::std_specs::cmp::PartialEqSpecImpl;
use vstd::string::StrSliceExecFns;
use weak_table::WeakHashSet;

verus! {

/// What the logic sees of a symbol: its kind and the identity of its shared name.
pub ghost struct Sym {
    pub var: bool,
    pub id: usize,
}

/// A name is a variable exactly when it begins with a question mark.
pub open spec fn is_variable_name(name: Seq<char>) -> bool {
    name.len() > 0 && name[0] == '?'
}

/// One shared copy of a name, with the number that identifies the copy.
#[derive(Debug)]
pub struct Handle {
    id: usize,
    text: Rc<str>,
}

impl Handle {
    pub closed spec fn id(&self) -> usize {
        self.id
    }

    pub closed spec fn name(&self) -> Seq<char> {
        self.text@
    }

    fn duplicate(&self) -> (r: Handle)
        ensures
            r.id() == self.id(),
            r.name() == self.name(),
    {
        Handle { id: self.id, text: self.text.clone() }
    }
}

/// A constant or a variable, decided by the first character of its name.
#[derive(Debug)]
pub enum Symbol {
    Constant(Handle),
    Variable(Handle),
}

impl View for Symbol {
    type V = Sym;

    open spec fn view(&self) -> Sym {
        Sym { var: self.spec_is_var(), id: self.handle().id() }
    }
}

impl Symbol {
    pub open spec fn handle(&self) -> Handle {
        match *self {
            Symbol::Constant(h) => h,
            Symbol::Variable(h) => h,
        }
    }

    pub open spec fn spec_is_var(&self) -> bool {
        self is Variable
    }

    /// The text that the symbol was interned from.
    pub open spec fn name(&self) -> Seq<char> {
        self.handle().name()
    }

    /// A hashable number that is the same for two symbols exactly when they are equal.
    pub open spec fn spec_key(s: Sym) -> u128 {
        (2 * (s.id as int) + if s.var { 1int } else { 0int }) as u128
    }

    /// Whether the symbol is a variable.
    #[verifier::when_used_as_spec(spec_is_var)]
    pub fn is_var(&self) -> (r: bool)
        ensures
            r == self.spec_is_var(),
    {
        match self {
            Symbol::Variable(_) => true,
            Symbol::Constant(_) => false,
        }
    }

    /// The symbol's text.
    pub fn as_str(&self) -> (r: &str)
        ensures
            r@ == self.name(),
    {
        match self {
            Symbol::Constant(h) => &h.text,
            Symbol::Variable(h) => &h.text,
        }
    }

    /// The number under which the symbol is filed in hash maps.
    pub fn key(&self) -> (k: u128)
        ensures
            k == Self::spec_key(self@),
    {
        match self {
            Symbol::Constant(h) => 2 * (h.id as u128),
            Symbol::Variable(h) => 2 * (h.id as u128) + 1,
        }
    }

    /// Equal keys mean equal symbols.
    pub proof fn key_is_injective(a: Sym, b: Sym)
        ensures
            Self::spec_key(a) == Self::spec_key(b) <==> a == b,
    {
    }
}

impl Clone for Symbol {
    fn clone(&self) -> (r: Symbol)
        ensures
            r@ == self@,
            r.name() == self.name(),
    {
        match self {
            Symbol::Constant(h) => Symbol::Constant(h.duplicate()),
            Symbol::Variable(h) => Symbol::Variable(h.duplicate()),
        }
    }
}

impl PartialEq for Symbol {
    /// Same kind and same shared copy of the name.
    fn eq(&self, other: &Symbol) -> (r: bool) {
        match self {
            Symbol::Constant(a) => match other {
                Symbol::Constant(b) => a.id == b.id,
                Symbol::Variable(_) => false,
            },
            Symbol::Variable(a) => match other {
                Symbol::Constant(_) => false,
                Symbol::Variable(b) => a.id == b.id,
            },
        }
    }
}

impl PartialEqSpecImpl for Symbol {
    open spec fn obeys_eq_spec() -> bool {
        true
    }

    open spec fn eq_spec(&self, other: &Symbol) -> bool {
        self@ == other@
    }
}

impl Eq for Symbol {}

/// The set of names that are currently shared: a
/// `weak_table::WeakHashSet` of `std::rc::Weak<str>`. It holds its entries
/// weakly: an entry lasts as long as some symbol made from it does. The
/// logic sees of it only which names were filed in it.
#[verifier::external_body]
pub struct NamePool {
    set: WeakHashSet<Weak<str>>,
}

/// The names that were filed in the pool since it was made. An entry may have
/// expired since it was filed: the pool need not hold a live entry for each.
pub uninterp spec fn pool_filed(pool: NamePool) -> Set<Seq<char>>;

/// `WeakHashSet::new`: an empty pool. No name was filed in it.
#[verifier::external_body]
fn pool_new() -> (pool: NamePool)
    ensures
        pool_filed(pool) == Set::<Seq<char>>::empty(),
{
    NamePool { set: WeakHashSet::new() }
}

/// `WeakHashSet::get`: a strong reference to the live entry that spells `name`,
/// if the pool has one. Whether it has one depends on which symbols are still
/// alive, so only this is claimed: what comes back spells `name`, and `name`
/// was filed.
#[verifier::external_body]
fn pool_get(pool: &NamePool, name: &str) -> (found: Option<Rc<str>>)
    ensures
        found matches Some(rc) ==> rc@ == name@ && pool_filed(*pool).contains(name@),
{
    pool.set.get(name)
}

/// `WeakHashSet::insert`: files a weak reference to `rc` under its text.
#[verifier::external_body]
fn pool_insert(pool: &mut NamePool, rc: Rc<str>)
    ensures
        pool_filed(*final(pool)) == pool_filed(*old(pool)).insert(rc@),
{
    pool.set.insert(rc);
}

/// `Rc::<str>::from`: a fresh shared copy of `name`, with the same text.
#[verifier::external_body]
fn shared_text(name: &str) -> (rc: Rc<str>)
    ensures
        rc@ == name@,
{
    Rc::from(name)
}

/// `str::as_ptr` on the shared copy: where its text lies, as a number. Two live
/// handles give the same number exactly when they share one copy; the contract
/// claims nothing of the number.
#[verifier::external_body]
fn location(rc: &Rc<str>) -> (at: usize) {
    rc.as_ptr() as usize
}

/// Interns names: while a symbol for a name is alive, asking for that name
/// again hands out the same symbol.
pub struct SymbolTable {
    pool: NamePool,
}

impl SymbolTable {
    /// The names that were interned in the table since it was made.
    pub closed spec fn filed(&self) -> Set<Seq<char>> {
        pool_filed(self.pool)
    }

    /// An empty table: no name was interned in it.
    pub fn new() -> (table: SymbolTable)
        ensures
            table.filed() == Set::<Seq<char>>::empty(),
    {
        SymbolTable { pool: pool_new() }
    }

    /// The symbol for `name`: the live one if the table has it, a fresh one
    /// otherwise. Either way `name` is then among the names that were interned.
    pub fn intern(&mut self, name: &str) -> (s: Symbol)
        ensures
            s.name() == name@,
            s.is_var() == is_variable_name(name@),
            final(self).filed() == old(self).filed().insert(name@),
    {
        match pool_get(&self.pool, name) {
            Some(rc) => {
                assert(self.filed().insert(name@) =~= self.filed());
                Self::create_symbol(rc)
            },
            None => {
                let rc = shared_text(name);
                pool_insert(&mut self.pool, rc.clone());
                Self::create_symbol(rc)
            },
        }
    }

    /// Wraps a shared name as a constant or a variable, by its first character.
    fn create_symbol(rc: Rc<str>) -> (s: Symbol)
        ensures
            s.name() == rc@,
            s.is_var() == is_variable_name(rc@),
    {
        let id = location(&rc);
        if rc.is_empty() {
            return Symbol::Constant(Handle { id, text: rc });
        }
        if rc.get_char(0) == '?' {
            Symbol::Variable(Handle { id, text: rc })
        } else {
            Symbol::Constant(Handle { id, text: rc })
        }
    }
}

} // verus!
