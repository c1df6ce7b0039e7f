use crate::scalar::Scalar;
use vstd::prelude::*;

verus! {

/// First-match lookup in an association list of named entries.
pub open spec fn assoc<T>(s: Seq<(Seq<char>, T)>, key: Seq<char>) -> Option<T>
    decreases s.len(),
{
    if s.len() == 0 {
        None
    } else if s[0].0 == key {
        Some(s[0].1)
    } else {
        assoc(s.drop_first(), key)
    }
}

/// Appending an entry leaves every earlier match in place and answers
/// only for a key that had no match before.
pub broadcast proof fn lemma_assoc_push<T>(s: Seq<(Seq<char>, T)>, p: (Seq<char>, T), key: Seq<char>)
    ensures
        #[trigger] assoc(s.push(p), key) == (match assoc(s, key) {
            Some(v) => Some(v),
            None => if p.0 == key {
                Some(p.1)
            } else {
                None
            },
        }),
    decreases s.len(),
{
    if s.len() == 0 {
        assert(s.push(p)[0] == p);
        assert(s.push(p).drop_first() =~= Seq::<(Seq<char>, T)>::empty());
    } else {
        assert(s.push(p)[0] == s[0]);
        assert(s.push(p).drop_first() =~= s.drop_first().push(p));
        lemma_assoc_push(s.drop_first(), p, key);
    }
}

/// The mathematical value of a [`Config`]: three association lists,
/// looked up by exact name with the first match winning.
pub ghost struct ConfigV {
    pub priorities: Seq<(Seq<char>, u8)>,
    pub functions: Seq<(Seq<char>, usize)>,
    pub constants: Seq<(Seq<char>, Scalar)>,
}

impl ConfigV {
    /// The precedence rank of an operator symbol, higher binding tighter.
    pub open spec fn priority_of(self, s: Seq<char>) -> Option<u8> {
        assoc(self.priorities, s)
    }

    /// The argument count of a named function.
    pub open spec fn arity_of(self, s: Seq<char>) -> Option<usize> {
        assoc(self.functions, s)
    }

    /// The value of a named constant.
    pub open spec fn constant_of(self, s: Seq<char>) -> Option<Scalar> {
        assoc(self.constants, s)
    }

    /// Whether a name denotes a function.
    pub open spec fn is_function(self, s: Seq<char>) -> bool {
        self.arity_of(s) is Some
    }
}

/// The symbol configuration the pipeline consults and never mutates:
/// operator precedence ranks, function arities and named constants.
pub struct Config {
    priorities: Vec<(String, u8)>,
    functions: Vec<(String, usize)>,
    constants: Vec<(String, Scalar)>,
}

impl View for Config {
    type V = ConfigV;

    closed spec fn view(&self) -> ConfigV {
        ConfigV {
            priorities: self.priorities.deep_view(),
            functions: self.functions.deep_view(),
            constants: self.constants.deep_view(),
        }
    }
}

/// First-match lookup of a `u8`-valued entry.
fn lookup_u8(list: &Vec<(String, u8)>, key: &String) -> (r: Option<u8>)
    ensures
        r == assoc(list.deep_view(), key@),
{
    let n = list.len();
    proof {
        assert(list.deep_view().skip(0) =~= list.deep_view());
    }
    let mut i: usize = 0;
    while i < n
        invariant
            n == list.len(),
            i <= n,
            assoc(list.deep_view(), key@) == assoc(list.deep_view().skip(i as int), key@),
        decreases n - i,
    {
        let pair = &list[i];
        proof {
            assert(list.deep_view().skip(i as int)[0] == list.deep_view()[i as int]);
        }
        if pair.0 == *key {
            return Some(pair.1);
        }
        proof {
            assert(list.deep_view().skip(i as int).drop_first() =~= list.deep_view().skip(
                i + 1,
            ));
        }
        i += 1;
    }
    None
}

/// First-match lookup of a `usize`-valued entry.
fn lookup_usize(list: &Vec<(String, usize)>, key: &String) -> (r: Option<usize>)
    ensures
        r == assoc(list.deep_view(), key@),
{
    let n = list.len();
    proof {
        assert(list.deep_view().skip(0) =~= list.deep_view());
    }
    let mut i: usize = 0;
    while i < n
        invariant
            n == list.len(),
            i <= n,
            assoc(list.deep_view(), key@) == assoc(list.deep_view().skip(i as int), key@),
        decreases n - i,
    {
        let pair = &list[i];
        proof {
            assert(list.deep_view().skip(i as int)[0] == list.deep_view()[i as int]);
        }
        if pair.0 == *key {
            return Some(pair.1);
        }
        proof {
            assert(list.deep_view().skip(i as int).drop_first() =~= list.deep_view().skip(
                i + 1,
            ));
        }
        i += 1;
    }
    None
}

/// First-match lookup of a scalar-valued entry.
fn lookup_scalar(list: &Vec<(String, Scalar)>, key: &String) -> (r: Option<Scalar>)
    ensures
        r == assoc(list.deep_view(), key@),
{
    let n = list.len();
    proof {
        assert(list.deep_view().skip(0) =~= list.deep_view());
    }
    let mut i: usize = 0;
    while i < n
        invariant
            n == list.len(),
            i <= n,
            assoc(list.deep_view(), key@) == assoc(list.deep_view().skip(i as int), key@),
        decreases n - i,
    {
        let pair = &list[i];
        proof {
            assert(list.deep_view().skip(i as int)[0] == list.deep_view()[i as int]);
        }
        if pair.0 == *key {
            return Some(pair.1);
        }
        proof {
            assert(list.deep_view().skip(i as int).drop_first() =~= list.deep_view().skip(
                i + 1,
            ));
        }
        i += 1;
    }
    None
}

impl Config {
    /// A configuration with no symbols at all.
    pub fn empty() -> (r: Config)
        ensures
            r@.priorities == Seq::<(Seq<char>, u8)>::empty(),
            r@.functions == Seq::<(Seq<char>, usize)>::empty(),
            r@.constants == Seq::<(Seq<char>, Scalar)>::empty(),
    {
        let r = Config { priorities: Vec::new(), functions: Vec::new(), constants: Vec::new() };
        proof {
            assert(r@.priorities =~= Seq::<(Seq<char>, u8)>::empty());
            assert(r@.functions =~= Seq::<(Seq<char>, usize)>::empty());
            assert(r@.constants =~= Seq::<(Seq<char>, Scalar)>::empty());
        }
        r
    }

    /// Appends an operator symbol with its precedence rank.
    pub fn add_priority(&mut self, name: String, rank: u8)
        ensures
            final(self)@.priorities == old(self)@.priorities.push((name@, rank)),
            final(self)@.functions == old(self)@.functions,
            final(self)@.constants == old(self)@.constants,
    {
        let ghost old_prio = self@.priorities;
        let ghost name_view = name@;
        self.priorities.push((name, rank));
        proof {
            assert(self@.priorities =~= old_prio.push((name_view, rank)));
        }
    }

    /// Appends a function name with its arity.
    pub fn add_function(&mut self, name: String, arity: usize)
        ensures
            final(self)@.functions == old(self)@.functions.push((name@, arity)),
            final(self)@.priorities == old(self)@.priorities,
            final(self)@.constants == old(self)@.constants,
    {
        let ghost old_funs = self@.functions;
        let ghost name_view = name@;
        self.functions.push((name, arity));
        proof {
            assert(self@.functions =~= old_funs.push((name_view, arity)));
        }
    }

    /// Appends a named constant with its value.
    pub fn add_constant(&mut self, name: String, value: Scalar)
        ensures
            final(self)@.constants == old(self)@.constants.push((name@, value)),
            final(self)@.priorities == old(self)@.priorities,
            final(self)@.functions == old(self)@.functions,
    {
        let ghost old_consts = self@.constants;
        let ghost name_view = name@;
        self.constants.push((name, value));
        proof {
            assert(self@.constants =~= old_consts.push((name_view, value)));
        }
    }

    /// The standard symbol table: `=` binds loosest, then `let`, then
    /// `+ -`, then `* /`; parentheses carry the highest rank and are only
    /// matched structurally; `sin` and `cos` take one argument, `max` and
    /// `min` two.  No constants are predefined: the host adds each constant
    /// it can value through [`Config::add_constant`].
    #[verifier::rlimit(50)]
    pub fn standard() -> (r: Config)
        ensures
            r@.priority_of("+"@) == Some(2u8),
            r@.priority_of("-"@) == Some(2u8),
            r@.priority_of("*"@) == Some(3u8),
            r@.priority_of("/"@) == Some(3u8),
            r@.priority_of("("@) == Some(4u8),
            r@.priority_of(")"@) == Some(4u8),
            r@.priority_of("let"@) == Some(1u8),
            r@.priority_of("="@) == Some(0u8),
            r@.arity_of("sin"@) == Some(1usize),
            r@.arity_of("max"@) == Some(2usize),
            r@.arity_of("min"@) == Some(2usize),
            r@.arity_of("cos"@) == Some(1usize),
            r@.constants == Seq::<(Seq<char>, Scalar)>::empty(),
    {
        let mut r = Config::empty();
        r.add_priority(String::from_str("+"), 2);
        r.add_priority(String::from_str("-"), 2);
        r.add_priority(String::from_str("*"), 3);
        r.add_priority(String::from_str("/"), 3);
        r.add_priority(String::from_str("("), 4);
        r.add_priority(String::from_str(")"), 4);
        r.add_priority(String::from_str("let"), 1);
        r.add_priority(String::from_str("="), 0);
        r.add_function(String::from_str("sin"), 1);
        r.add_function(String::from_str("max"), 2);
        r.add_function(String::from_str("min"), 2);
        r.add_function(String::from_str("cos"), 1);
        proof {
            broadcast use lemma_assoc_push;

            reveal_strlit("+");
            reveal_strlit("-");
            reveal_strlit("*");
            reveal_strlit("/");
            reveal_strlit("(");
            reveal_strlit(")");
            reveal_strlit("let");
            reveal_strlit("=");
            reveal_strlit("sin");
            reveal_strlit("max");
            reveal_strlit("min");
            reveal_strlit("cos");
            assert("+"@[0] == '+' && "-"@[0] == '-' && "*"@[0] == '*' && "/"@[0] == '/');
            assert("("@[0] == '(' && ")"@[0] == ')' && "let"@[0] == 'l' && "="@[0] == '=');
            assert("sin"@[0] == 's' && "max"@[0] == 'm' && "min"@[0] == 'm' && "cos"@[0] == 'c');
            assert("max"@[1] == 'a' && "min"@[1] == 'i');
            assert(r@.priority_of("+"@) == Some(2u8));
            assert(r@.priority_of("-"@) == Some(2u8));
            assert(r@.priority_of("*"@) == Some(3u8));
            assert(r@.priority_of("/"@) == Some(3u8));
            assert(r@.priority_of("("@) == Some(4u8));
            assert(r@.priority_of(")"@) == Some(4u8));
            assert(r@.priority_of("let"@) == Some(1u8));
            assert(r@.priority_of("="@) == Some(0u8));
            assert(r@.arity_of("sin"@) == Some(1usize));
            assert(r@.arity_of("max"@) == Some(2usize));
            assert(r@.arity_of("min"@) == Some(2usize));
            assert(r@.arity_of("cos"@) == Some(1usize));
        }
        r
    }

    /// The precedence rank of an operator symbol.
    pub fn priority(&self, name: &String) -> (r: Option<u8>)
        ensures
            r == self@.priority_of(name@),
    {
        lookup_u8(&self.priorities, name)
    }

    /// The argument count of a named function.
    pub fn arity(&self, name: &String) -> (r: Option<usize>)
        ensures
            r == self@.arity_of(name@),
    {
        lookup_usize(&self.functions, name)
    }

    /// The value of a named constant.
    pub fn constant(&self, name: &String) -> (r: Option<Scalar>)
        ensures
            r == self@.constant_of(name@),
    {
        lookup_scalar(&self.constants, name)
    }

    /// Whether a name denotes a function.
    pub fn is_function(&self, name: &String) -> (r: bool)
        ensures
            r == self@.is_function(name@),
    {
        self.arity(name).is_some()
    }
}

} // verus!
