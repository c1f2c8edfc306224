use vstd::prelude::*;

use crate::flo::blob::{find_key, keys_distinct};
use crate::hash::{sha256, sha256_spec};
use crate::nodeid::{push_bytes, U256};
use vstd::utf8::encode_utf8;

verus! {

pub type ID = U256;

pub type ExpressionID = U256;

#[derive(Debug)]
pub enum ErrorExpression {
    WrongExpressions,
}

/// An update of access rules.
pub struct AccessRuleUpdate {}

/// The signature of an expression.
pub struct ExpressionSignature {}

/// Which of the signing and updating rules an expression has.
#[derive(Clone, Copy, Debug, PartialEq, Eq, Structural)]
pub enum RequiredRules {
    Signer,
    SignerUpdater,
    Updater,
    NoRule,
}

pub open spec fn spec_from_sig_up(signer: bool, update: bool) -> RequiredRules {
    if signer {
        if update {
            RequiredRules::SignerUpdater
        } else {
            RequiredRules::Signer
        }
    } else {
        if update {
            RequiredRules::Updater
        } else {
            RequiredRules::NoRule
        }
    }
}

/// Some key is the given name.
pub open spec fn has_key(keys: Seq<&String>, name: Seq<char>) -> bool {
    exists|i: int| 0 <= i < keys.len() && (#[trigger] keys[i])@ == name
}

fn contains_key(keys: &Vec<&String>, name: &str) -> (r: bool)
    ensures
        r == has_key(keys@, name@),
{
    let target = name.to_string();
    let mut i: usize = 0;
    while i < keys.len()
        invariant
            0 <= i <= keys.len(),
            target@ == name@,
            forall|j: int| 0 <= j < i ==> (#[trigger] keys@[j])@ != name@,
        decreases keys.len() - i,
    {
        if *keys[i] == target {
            return true;
        }
        i = i + 1;
    }
    false
}

impl RequiredRules {
    pub fn from_sig_up(signer: bool, update: bool) -> (r: Self)
        ensures
            r == spec_from_sig_up(signer, update),
    {
        if signer {
            if update {
                Self::SignerUpdater
            } else {
                Self::Signer
            }
        } else {
            if update {
                Self::Updater
            } else {
                Self::NoRule
            }
        }
    }

    /// The rules named among the keys: "sign" for signing, "update" for updating.
    pub fn from_keys(keys: Vec<&String>) -> (r: Self)
        ensures
            r == spec_from_sig_up(has_key(keys@, "sign"@), has_key(keys@, "update"@)),
    {
        Self::from_sig_up(contains_key(&keys, "sign"), contains_key(&keys, "update"))
    }
}


/// A rule that a signature must meet: a verifier, an expression, `n` of the given
/// expressions, or no rule at all.
pub enum Rule {
    Verifier(ID),
    Expression(ID),
    NofT(usize, Vec<Expression>),
    NoRule,
}

/// An expression: named rules, identified by a hash over them.
pub struct Expression {
    id: ID,
    rr: RequiredRules,
    rules: Vec<(String, Rule)>,
    updates: Vec<ExpressionUpdate>,
}

/// An update of the rules of an expression, and its signature.
pub struct ExpressionUpdate {
    rules: Vec<(String, Rule)>,
    signature: Vec<u8>,
}

/// Access rules: an expression for updates and expressions by name.
pub struct AccessRules {
    id: ID,
    update: ExpressionID,
    rules: Vec<(String, ExpressionID)>,
    updates: Vec<AccessRuleUpdate>,
}

/// The little-endian bytes of `n`, as many as a `usize` has.
pub open spec fn le_bytes_usize(n: usize) -> Seq<u8> {
    Seq::new((usize::BITS / 8) as nat, |i: int| (n >> ((8 * i) as usize)) as u8)
}

pub(crate) fn push_le_bytes_usize(v: &mut Vec<u8>, n: usize)
    ensures
        final(v)@ == old(v)@ + le_bytes_usize(n),
{
    let len: usize = (usize::BITS / 8) as usize;
    let mut i: usize = 0;
    while i < len
        invariant
            len == usize::BITS / 8,
            usize::BITS == 32 || usize::BITS == 64,
            0 <= i <= len,
            v@ == old(v)@ + le_bytes_usize(n).take(i as int),
        decreases len - i,
    {
        proof {
            assert(old(v)@ + le_bytes_usize(n).take(i + 1) =~= (old(v)@ + le_bytes_usize(n).take(
                i as int,
            )).push((n >> ((8 * i) as usize)) as u8));
        }
        v.push((n >> (8 * i)) as u8);
        i = i + 1;
    }
    proof {
        assert(le_bytes_usize(n).take(len as int) =~= le_bytes_usize(n));
    }
}

/// The identifiers of the expressions, one after the other.
pub open spec fn expression_ids(s: Seq<Expression>) -> Seq<u8>
    decreases s.len(),
{
    if s.len() == 0 {
        Seq::empty()
    } else {
        expression_ids(s.drop_last()) + s.last().id_spec().bytes@
    }
}

/// The bytes hashed into the identifier of a rule.
pub open spec fn rule_preimage(r: Rule) -> Seq<u8> {
    match r {
        Rule::Verifier(u) => encode_utf8("verifier"@) + u.bytes@,
        Rule::Expression(u) => encode_utf8("expression"@) + u.bytes@,
        Rule::NofT(n, v) => encode_utf8("noft"@) + le_bytes_usize(n) + expression_ids(v@),
        Rule::NoRule => encode_utf8("none"@),
    }
}

/// The identifier of a rule.
pub open spec fn rule_id(r: Rule) -> Seq<u8> {
    sha256_spec(rule_preimage(r))
}

/// The bytes hashed into the identifier of an expression: for each rule, the
/// length of its name and its identifier.
pub open spec fn rules_preimage(rules: Seq<(String, Rule)>) -> Seq<u8>
    decreases rules.len(),
{
    if rules.len() == 0 {
        Seq::empty()
    } else {
        rules_preimage(rules.drop_last()) + le_bytes_usize(
            encode_utf8(rules.last().0@).len() as usize,
        ) + rule_id(rules.last().1)
    }
}

/// The rules after inserting each pair in turn: a later pair replaces the rule of
/// an earlier one with the same name.
pub open spec fn insert_rules(rules: Seq<(String, Rule)>) -> Seq<(String, Rule)>
    decreases rules.len(),
{
    if rules.len() == 0 {
        Seq::empty()
    } else {
        let r = insert_rules(rules.drop_last());
        let p = rules.last();
        match find_name(r, p.0@) {
            Some(i) => r.update(i, p),
            None => r.push(p),
        }
    }
}

/// The index of the rule named `k`.
pub open spec fn find_name(rules: Seq<(String, Rule)>, k: Seq<char>) -> Option<int> {
    if exists|i: int| 0 <= i < rules.len() && (#[trigger] rules[i]).0@ == k {
        Some(choose|i: int| 0 <= i < rules.len() && (#[trigger] rules[i]).0@ == k)
    } else {
        None
    }
}

/// Some rule is named `k`.
pub open spec fn has_name(rules: Seq<(String, Rule)>, k: Seq<char>) -> bool {
    exists|i: int| 0 <= i < rules.len() && (#[trigger] rules[i]).0@ == k
}

impl Rule {
    /// The identifier of the rule: a hash of its kind and contents.
    pub fn get_id(&self) -> (r: ID)
        ensures
            r.bytes@ == rule_id(*self),
    {
        let mut data: Vec<u8> = Vec::new();
        match self {
            Rule::Verifier(u256) => {
                push_bytes(&mut data, "verifier".as_bytes());
                push_bytes(&mut data, u256.bytes.as_slice());
            },
            Rule::Expression(u256) => {
                push_bytes(&mut data, "expression".as_bytes());
                push_bytes(&mut data, u256.bytes.as_slice());
            },
            Rule::NofT(n, vec) => {
                push_bytes(&mut data, "noft".as_bytes());
                push_le_bytes_usize(&mut data, *n);
                let ghost start = data@;
                let mut i: usize = 0;
                while i < vec.len()
                    invariant
                        0 <= i <= vec.len(),
                        data@ == start + expression_ids(vec@.take(i as int)),
                    decreases vec.len() - i,
                {
                    proof {
                        assert(vec@.take(i + 1).drop_last() =~= vec@.take(i as int));
                    }
                    let id = vec[i].get_id();
                    push_bytes(&mut data, id.bytes.as_slice());
                    proof {
                        assert(data@ =~= start + expression_ids(vec@.take(i + 1)));
                    }
                    i = i + 1;
                }
                proof {
                    assert(vec@.take(vec.len() as int) =~= vec@);
                }
            },
            Rule::NoRule => {
                push_bytes(&mut data, "none".as_bytes());
            },
        }
        proof {
            assert(data@ =~= rule_preimage(*self));
        }
        U256 { bytes: sha256(data.as_slice()) }
    }
}

impl Expression {
    pub closed spec fn id_spec(&self) -> ID {
        self.id
    }

    pub closed spec fn rr_spec(&self) -> RequiredRules {
        self.rr
    }

    pub closed spec fn rules_spec(&self) -> Seq<(String, Rule)> {
        self.rules@
    }

    pub closed spec fn version_spec(&self) -> nat {
        self.updates@.len()
    }

    /// An expression with the given rules, a later rule replacing an earlier one
    /// of the same name. Its identifier is a hash over the rules, and it requires
    /// signing if a rule is named "sign", and updating if one is named "update".
    pub fn new(rules: Vec<(String, Rule)>) -> (r: Result<Self, ErrorExpression>)
        ensures
            r is Ok,
            r->Ok_0.rules_spec() == insert_rules(rules@),
            r->Ok_0.id_spec().bytes@ == sha256_spec(rules_preimage(insert_rules(rules@))),
            r->Ok_0.rr_spec() == spec_from_sig_up(
                has_name(insert_rules(rules@), "sign"@),
                has_name(insert_rules(rules@), "update"@),
            ),
            r->Ok_0.version_spec() == 0,
    {
        let ghost orig = rules@;
        let mut rest = rules;
        let mut map: Vec<(String, Rule)> = Vec::new();
        let n = rest.len();
        let mut k: usize = 0;
        while k < n
            invariant
                0 <= k <= n,
                n == orig.len(),
                rest@.len() == n - k,
                forall|j: int| 0 <= j < n - k ==> #[trigger] rest@[j] == orig[k + j],
                map@ == insert_rules(orig.take(k as int)),
                keys_distinct(map@),
            decreases n - k,
        {
            let p = rest.remove(0);
            proof {
                assert(p == orig[k as int]);
                assert(orig.take(k + 1).drop_last() =~= orig.take(k as int));
            }
            let ghost m0 = map@;
            match find_key(&map, &p.0) {
                Some(i) => {
                    proof {
                        lemma_find_name(m0, p.0@, i as int);
                        assert(keys_distinct(m0.update(i as int, p))) by {
                            assert forall|x: int, y: int| 0 <= x < y < m0.len() implies (
                            #[trigger] m0.update(i as int, p)[x]).0@ != (#[trigger] m0.update(
                                i as int,
                                p,
                            )[y]).0@ by {
                                assert(m0.update(i as int, p)[x].0@ == m0[x].0@);
                                assert(m0.update(i as int, p)[y].0@ == m0[y].0@);
                            }
                        }
                    }
                    map.set(i, p);
                },
                None => {
                    proof {
                        assert(find_name(m0, p.0@) is None);
                    }
                    map.push(p);
                    proof {
                        assert forall|x: int, y: int| 0 <= x < y < map@.len() implies (
                        #[trigger] map@[x]).0@ != (#[trigger] map@[y]).0@ by {
                            if y == m0.len() {
                                assert(m0[x].0@ != map@[y].0@);
                            } else {
                                assert(map@[x] == m0[x] && map@[y] == m0[y]);
                            }
                        }
                    }
                },
            }
            k = k + 1;
        }
        proof {
            assert(orig.take(n as int) =~= orig);
        }
        let id = Self::calc_id(&map);
        let mut keys: Vec<&String> = Vec::new();
        let mut i: usize = 0;
        while i < map.len()
            invariant
                0 <= i <= map.len(),
                keys@.len() == i,
                forall|j: int| 0 <= j < i ==> (#[trigger] keys@[j])@ == map@[j].0@,
            decreases map.len() - i,
        {
            keys.push(&map[i].0);
            i = i + 1;
        }
        proof {
            assert(has_key(keys@, "sign"@) == has_name(map@, "sign"@)) by {
                if has_key(keys@, "sign"@) {
                    let j = choose|j: int| 0 <= j < keys@.len() && (#[trigger] keys@[j])@ == "sign"@;
                    assert(map@[j].0@ == "sign"@);
                }
                if has_name(map@, "sign"@) {
                    let j = choose|j: int| 0 <= j < map@.len() && (#[trigger] map@[j]).0@ == "sign"@;
                    assert(keys@[j]@ == "sign"@);
                }
            }
            assert(has_key(keys@, "update"@) == has_name(map@, "update"@)) by {
                if has_key(keys@, "update"@) {
                    let j = choose|j: int| 0 <= j < keys@.len() && (#[trigger] keys@[j])@ == "update"@;
                    assert(map@[j].0@ == "update"@);
                }
                if has_name(map@, "update"@) {
                    let j = choose|j: int| 0 <= j < map@.len() && (#[trigger] map@[j]).0@ == "update"@;
                    assert(keys@[j]@ == "update"@);
                }
            }
        }
        let rr = RequiredRules::from_keys(keys);
        Ok(Self { id, rr, rules: map, updates: Vec::new() })
    }

    /// An expression with a rule for signing and a rule for updating.
    pub fn new_signer_updater(sign: Rule, update: Rule) -> (r: Self)
        ensures
            r.rules_spec().len() == 2,
            r.rules_spec()[0].0@ == "sign"@ && r.rules_spec()[0].1 == sign,
            r.rules_spec()[1].0@ == "update"@ && r.rules_spec()[1].1 == update,
            r.id_spec().bytes@ == sha256_spec(rules_preimage(r.rules_spec())),
            r.rr_spec() == RequiredRules::SignerUpdater,
            r.version_spec() == 0,
    {
        let sign_key = "sign".to_owned();
        let update_key = "update".to_owned();
        let rules = vec![(sign_key, sign), (update_key, update)];
        proof {
            reveal_strlit("sign");
            reveal_strlit("update");
            let s = rules@;
            assert(s[0].0@ == "sign"@);
            assert(s[1].0@ == "update"@);
            assert("sign"@.len() == 4);
            assert("update"@.len() == 6);
            assert(s.take(0) =~= Seq::<(String, Rule)>::empty());
            assert(s.take(1).drop_last() =~= s.take(0));
            assert(s.take(2).drop_last() =~= s.take(1));
            assert(s.take(2) =~= s);
            assert(insert_rules(s.take(0)) =~= Seq::<(String, Rule)>::empty());
            assert(s.take(1).last() == s[0]);
            assert(find_name(Seq::<(String, Rule)>::empty(), s[0].0@) is None);
            let r1 = insert_rules(s.take(1));
            assert(r1 =~= seq![s[0]]);
            assert(s[1].0@ != s[0].0@);
            assert(!has_name(r1, s[1].0@));
            assert(find_name(r1, s[1].0@) is None);
            let r2 = insert_rules(s);
            assert(r2 =~= seq![s[0], s[1]]);
            assert(has_name(r2, "sign"@)) by {
                assert(r2[0].0@ == "sign"@);
            }
            assert(has_name(r2, "update"@)) by {
                assert(r2[1].0@ == "update"@);
            }
        }
        Self::new(rules).unwrap()
    }

    /// The hash over the rules: for each, the length of its name and its
    /// identifier.
    fn calc_id(rules: &Vec<(String, Rule)>) -> (r: ID)
        ensures
            r.bytes@ == sha256_spec(rules_preimage(rules@)),
    {
        let mut data: Vec<u8> = Vec::new();
        let mut i: usize = 0;
        while i < rules.len()
            invariant
                0 <= i <= rules.len(),
                data@ == rules_preimage(rules@.take(i as int)),
            decreases rules.len() - i,
        {
            proof {
                assert(rules@.take(i + 1).drop_last() =~= rules@.take(i as int));
            }
            push_le_bytes_usize(&mut data, rules[i].0.as_str().len());
            let id = rules[i].1.get_id();
            push_bytes(&mut data, id.bytes.as_slice());
            i = i + 1;
        }
        proof {
            assert(rules@.take(rules.len() as int) =~= rules@);
        }
        U256 { bytes: sha256(data.as_slice()) }
    }

    /// Whether the expression has a rule for signing.
    pub fn has_sign(&self) -> (r: bool)
        ensures
            r == (self.rr_spec() == RequiredRules::Signer || self.rr_spec() == RequiredRules::SignerUpdater),
    {
        self.rr == RequiredRules::Signer || self.rr == RequiredRules::SignerUpdater
    }

    /// Whether the expression has a rule for updating.
    pub fn has_update(&self) -> (r: bool)
        ensures
            r == (self.rr_spec() == RequiredRules::Updater || self.rr_spec() == RequiredRules::SignerUpdater),
    {
        self.rr == RequiredRules::Updater || self.rr == RequiredRules::SignerUpdater
    }

    pub fn get_id(&self) -> (r: ID)
        ensures
            r == self.id_spec(),
    {
        self.id
    }

    /// The number of updates of the expression.
    pub fn get_version(&self) -> (r: usize)
        ensures
            r == self.version_spec(),
    {
        self.updates.len()
    }

    /// Starts a signature of `msg` by this expression.
    pub fn start_signature(&self, msg: Vec<u8>) -> (r: ExpressionSignature)
        ensures
            r == (ExpressionSignature {}),
    {
        ExpressionSignature {}
    }
}

/// The index of the rule named `k`, when names are distinct.
proof fn lemma_find_name(m: Seq<(String, Rule)>, k: Seq<char>, i: int)
    requires
        keys_distinct(m),
        0 <= i < m.len(),
        m[i].0@ == k,
    ensures
        find_name(m, k) == Some(i),
{
    let j = choose|j: int| 0 <= j < m.len() && (#[trigger] m[j]).0@ == k;
    if j != i {
        if j < i {
            assert(m[j].0@ != m[i].0@);
        } else {
            assert(m[i].0@ != m[j].0@);
        }
    }
}

} // verus!
