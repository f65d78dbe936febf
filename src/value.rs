use vstd::prelude::*;

use crate::error::Error;
use crate::pointer::{
    decode, lemma_tokens_of_parent, parent_text, raw_key, tokens_of, valid_text, Pointer,
};
use crate::ValueExt;

verus! {

/// A JSON tree value.
///
/// An object keeps its entries in insertion order. Lookups use the first entry
/// with a given key; an insertion under a key that is present replaces that
/// entry's value in place, and one under a new key appends an entry.
#[derive(Debug, PartialEq)]
pub enum Value {
    Null,
    Bool(bool),
    /// A number, held as its JSON text.
    Number(String),
    String(String),
    Array(Vec<Value>),
    Object(Vec<(String, Value)>),
}

/// The value of a sequence of ASCII decimal digits.
pub open spec fn digits_value(d: Seq<char>) -> nat
    decreases d.len(),
{
    if d.len() == 0 {
        0
    } else {
        digits_value(d.drop_last()) * 10 + ((d.last() as u32) - ('0' as u32)) as nat
    }
}

/// An ASCII decimal digit.
pub open spec fn is_digit(c: char) -> bool {
    '0' as u32 <= c as u32 <= '9' as u32
}

/// A token without its leading `+`, if it has one.
pub open spec fn unsigned_digits(t: Seq<char>) -> Seq<char> {
    if t.len() > 0 && t[0] == '+' {
        t.subrange(1, t.len() as int)
    } else {
        t
    }
}

/// The array index a token denotes: an optional `+`, then one or more decimal
/// digits, whose value fits in `usize`.
pub open spec fn index_of(t: Seq<char>) -> Option<nat> {
    let d = unsigned_digits(t);
    if d.len() > 0 && (forall|i: int| 0 <= i < d.len() ==> is_digit(#[trigger] d[i]))
        && digits_value(d) <= usize::MAX {
        Some(digits_value(d))
    } else {
        None
    }
}

/// Position of the first entry of `o` under key `k`.
pub open spec fn entry_index(o: Seq<(String, Value)>, k: Seq<char>) -> Option<int>
    decreases o.len(),
{
    if o.len() == 0 {
        None
    } else if o[0].0@ == k {
        Some(0)
    } else {
        match entry_index(o.drop_first(), k) {
            Some(j) => Some(j + 1),
            None => None,
        }
    }
}

/// The value under key `k` in the entries `o`.
pub open spec fn entry_value(o: Seq<(String, Value)>, k: Seq<char>) -> Option<Value> {
    match entry_index(o, k) {
        Some(j) => Some(o[j].1),
        None => None,
    }
}

/// The child of `v` that the decoded token `t` addresses.
pub open spec fn child(v: Value, t: Seq<char>) -> Option<Value> {
    match v {
        Value::Object(o) => entry_value(o@, t),
        Value::Array(a) => match index_of(t) {
            Some(i) => if i < a@.len() { Some(a@[i as int]) } else { None },
            None => None,
        },
        _ => None,
    }
}

/// The node that the decoded tokens `toks` address in `v`.
pub open spec fn resolve(v: Value, toks: Seq<Seq<char>>) -> Option<Value>
    decreases toks.len(),
{
    if toks.len() == 0 {
        Some(v)
    } else {
        match child(v, toks[0]) {
            Some(c) => resolve(c, toks.drop_first()),
            None => None,
        }
    }
}

/// `r` is `v` with the node at `toks` (which exists) replaced by `n`.
pub open spec fn replaced(v: Value, toks: Seq<Seq<char>>, n: Value, r: Value) -> bool
    decreases toks.len(),
{
    if toks.len() == 0 {
        r == n
    } else {
        match (v, r) {
            (Value::Object(o), Value::Object(o2)) => match entry_index(o@, toks[0]) {
                Some(j) => {
                    &&& o2@ == o@.update(j, o2@[j])
                    &&& o2@[j].0 == o@[j].0
                    &&& replaced(o@[j].1, toks.drop_first(), n, o2@[j].1)
                },
                None => false,
            },
            (Value::Array(a), Value::Array(a2)) => match index_of(toks[0]) {
                Some(i) => {
                    &&& i < a@.len()
                    &&& a2@ == a@.update(i as int, a2@[i as int])
                    &&& replaced(a@[i as int], toks.drop_first(), n, a2@[i as int])
                },
                None => false,
            },
            _ => false,
        }
    }
}

/// `o2` is `o` with `x` set under key `k`: in place when `k` is present,
/// appended otherwise.
pub open spec fn entries_set(o: Seq<(String, Value)>, k: Seq<char>, x: Value, o2: Seq<(String, Value)>) -> bool {
    match entry_index(o, k) {
        Some(j) => o2 == o.update(j, (o[j].0, x)),
        None => {
            &&& o2.len() == o.len() + 1
            &&& o2.drop_last() == o
            &&& o2.last().0@ == k
            &&& o2.last().1 == x
        },
    }
}

/// `n2` is the object `n` with `x` set under key `k`.
pub open spec fn object_set(n: Value, k: Seq<char>, x: Value, n2: Value) -> bool {
    match (n, n2) {
        (Value::Object(o), Value::Object(o2)) => entries_set(o@, k, x, o2@),
        _ => false,
    }
}

/// The first entry under `k` is the first one from `j` on, when none before `j` has it.
proof fn lemma_entry_index(o: Seq<(String, Value)>, k: Seq<char>, j: int)
    requires
        0 <= j <= o.len(),
        forall|m: int| 0 <= m < j ==> o[m].0@ != k,
    ensures
        j < o.len() && o[j].0@ == k ==> entry_index(o, k) == Some(j),
        j == o.len() ==> entry_index(o, k) is None,
        entry_index(o, k) is Some ==> 0 <= entry_index(o, k)->0 < o.len(),
        entry_index(o, k) is Some ==> o[entry_index(o, k)->0].0@ == k,
    decreases o.len(),
{
    if o.len() > 0 {
        let t = o.drop_first();
        if j > 0 {
            assert forall|m: int| 0 <= m < j - 1 implies t[m].0@ != k by {
                assert(t[m] == o[m + 1]);
            }
            lemma_entry_index(t, k, j - 1);
        } else {
            lemma_entry_index(t, k, 0);
        }
    }
}

/// No entry of `o` has key `k` when `entry_index` finds none.
proof fn lemma_entry_none(o: Seq<(String, Value)>, k: Seq<char>)
    requires
        entry_index(o, k) is None,
    ensures
        forall|m: int| 0 <= m < o.len() ==> o[m].0@ != k,
    decreases o.len(),
{
    if o.len() > 0 {
        let t = o.drop_first();
        lemma_entry_none(t, k);
        assert forall|m: int| 0 <= m < o.len() implies o[m].0@ != k by {
            if m > 0 {
                assert(o[m] == t[m - 1]);
            }
        }
    }
}

/// Entries with the same keys, in the same order, find a key at the same place.
proof fn lemma_entry_index_same_keys(o: Seq<(String, Value)>, o2: Seq<(String, Value)>, k: Seq<char>)
    requires
        o.len() == o2.len(),
        forall|m: int| 0 <= m < o.len() ==> #[trigger] o[m].0 == o2[m].0,
    ensures
        entry_index(o, k) == entry_index(o2, k),
    decreases o.len(),
{
    if o.len() > 0 {
        let t = o.drop_first();
        let t2 = o2.drop_first();
        assert forall|m: int| 0 <= m < t.len() implies #[trigger] t[m].0 == t2[m].0 by {
            assert(t[m] == o[m + 1]);
            assert(t2[m] == o2[m + 1]);
        }
        lemma_entry_index_same_keys(t, t2, k);
        assert(o[0].0 == o2[0].0);
    }
}

/// Resolving a path one token longer goes one child further.
proof fn lemma_resolve_push(v: Value, toks: Seq<Seq<char>>, t: Seq<char>)
    ensures
        resolve(v, toks.push(t)) == match resolve(v, toks) {
            Some(c) => child(c, t),
            None => None,
        },
    decreases toks.len(),
{
    if toks.len() == 0 {
        assert(toks.push(t).drop_first() =~= Seq::<Seq<char>>::empty());
        assert(toks.push(t)[0] == t);
        match child(v, t) {
            Some(c) => {
                assert(resolve(c, Seq::<Seq<char>>::empty()) == Some(c));
            },
            None => {},
        }
    } else {
        assert(toks.push(t).drop_first() =~= toks.drop_first().push(t));
        assert(toks.push(t)[0] == toks[0]);
        match child(v, toks[0]) {
            Some(c) => lemma_resolve_push(c, toks.drop_first(), t),
            None => {},
        }
    }
}

/// The node put in place at a path is what the path then resolves to.
pub proof fn lemma_replaced_resolves(v: Value, toks: Seq<Seq<char>>, n: Value, r: Value)
    requires
        replaced(v, toks, n, r),
    ensures
        resolve(r, toks) == Some(n),
    decreases toks.len(),
{
    if toks.len() > 0 {
        match (v, r) {
            (Value::Object(o), Value::Object(o2)) => {
                let j = entry_index(o@, toks[0])->0;
                lemma_entry_index(o@, toks[0], 0);
                assert forall|m: int| 0 <= m < o@.len() implies #[trigger] o@[m].0 == o2@[m].0 by {
                    if m != j {
                        assert(o2@[m] == o@[m]);
                    }
                }
                lemma_entry_index_same_keys(o@, o2@, toks[0]);
                lemma_replaced_resolves(o@[j].1, toks.drop_first(), n, o2@[j].1);
            },
            (Value::Array(a), Value::Array(a2)) => {
                let i = index_of(toks[0])->0;
                lemma_replaced_resolves(a@[i as int], toks.drop_first(), n, a2@[i as int]);
            },
            _ => {},
        }
    }
}

/// After a key is set in an object, the key addresses the value set.
pub proof fn lemma_object_set_child(n: Value, k: Seq<char>, x: Value, n2: Value)
    requires
        object_set(n, k, x, n2),
    ensures
        child(n2, k) == Some(x),
{
    match (n, n2) {
        (Value::Object(o), Value::Object(o2)) => {
            match entry_index(o@, k) {
                Some(j) => {
                    lemma_entry_index(o@, k, 0);
                    assert forall|m: int| 0 <= m < o@.len() implies #[trigger] o@[m].0 == o2@[m].0 by {
                        if m != j {
                            assert(o2@[m] == o@[m]);
                        }
                    }
                    lemma_entry_index_same_keys(o@, o2@, k);
                },
                None => {
                    lemma_entry_none(o@, k);
                    assert forall|m: int| 0 <= m < o@.len() implies o2@[m].0@ != k by {
                        assert(o2@[m] == o2@.drop_last()[m]);
                    }
                    lemma_entry_index(o2@, k, o@.len() as int);
                },
            }
        },
        _ => {},
    }
}

/// Once a value is inserted at a non-root pointer, the pointer addresses that value.
pub proof fn lemma_insert_then_lookup(v: Value, p: Seq<char>, x: Value, n2: Value, r: Value)
    requires
        valid_text(p),
        p.len() > 0,
        resolve(v, tokens_of(parent_text(p))) is Some,
        object_set(resolve(v, tokens_of(parent_text(p)))->0, decode(raw_key(p)), x, n2),
        replaced(v, tokens_of(parent_text(p)), n2, r),
    ensures
        resolve(r, tokens_of(p)) == Some(x),
{
    lemma_tokens_of_parent(p);
    lemma_replaced_resolves(v, tokens_of(parent_text(p)), n2, r);
    lemma_resolve_push(r, tokens_of(parent_text(p)), decode(raw_key(p)));
    lemma_object_set_child(resolve(v, tokens_of(parent_text(p)))->0, decode(raw_key(p)), x, n2);
}

/// Position of the first entry under `k`.
fn find_entry(o: &Vec<(String, Value)>, k: &String) -> (r: Option<usize>)
    ensures
        r is None <==> entry_index(o@, k@) is None,
        r is Some ==> r->0 == entry_index(o@, k@)->0,
        r is Some ==> r->0 < o@.len(),
{
    let mut j: usize = 0;
    while j < o.len()
        invariant
            j <= o@.len(),
            forall|m: int| 0 <= m < j ==> o@[m].0@ != k@,
        decreases o@.len() - j,
    {
        if o[j].0 == *k {
            proof {
                lemma_entry_index(o@, k@, j as int);
            }
            return Some(j);
        }
        j = j + 1;
    }
    proof {
        lemma_entry_index(o@, k@, j as int);
    }
    None
}

/// Parses an array index: an optional `+`, then decimal digits whose value fits in `usize`.
pub fn parse_index(t: &str) -> (r: Option<usize>)
    ensures
        r is None <==> index_of(t@) is None,
        r is Some ==> r->0 == index_of(t@)->0,
{
    let n = t.unicode_len();
    let start: usize = if n > 0 && t.get_char(0) == '+' { 1 } else { 0 };
    let d = Ghost(t@.subrange(start as int, n as int));
    assert(d@ =~= unsigned_digits(t@));
    if start == n {
        return None;
    }
    let mut acc: usize = 0;
    let mut overflow = false;
    let mut i: usize = start;
    while i < n
        invariant
            n == t@.len(),
            start <= i <= n,
            d@ == t@.subrange(start as int, n as int),
            d@ == unsigned_digits(t@),
            forall|m: int| 0 <= m < i - start ==> is_digit(#[trigger] d@[m]),
            !overflow ==> acc == digits_value(d@.subrange(0, i - start)),
            overflow ==> digits_value(d@.subrange(0, i - start)) > usize::MAX,
        decreases n - i,
    {
        let c = t.get_char(i);
        assert(c == d@[i - start]);
        if !('0' as u32 <= c as u32 && c as u32 <= '9' as u32) {
            assert(!is_digit(d@[i - start]));
            assert(!(forall|m: int| 0 <= m < d@.len() ==> is_digit(#[trigger] d@[m])));
            return None;
        }
        let digit: usize = (c as u32 - '0' as u32) as usize;
        let ghost prev = d@.subrange(0, i - start);
        assert(d@.subrange(0, i + 1 - start).drop_last() =~= prev);
        assert(digits_value(d@.subrange(0, i + 1 - start)) == digits_value(prev) * 10 + digit);
        if !overflow {
            match acc.checked_mul(10) {
                Some(m) => match m.checked_add(digit) {
                    Some(v) => {
                        acc = v;
                    },
                    None => {
                        overflow = true;
                    },
                },
                None => {
                    overflow = true;
                    assert(digits_value(prev) * 10 + digit > usize::MAX) by (nonlinear_arith)
                        requires
                            digits_value(prev) * 10 > usize::MAX,
                            digit >= 0;
                },
            }
        } else {
            assert(digits_value(prev) * 10 + digit > usize::MAX) by (nonlinear_arith)
                requires
                    digits_value(prev) > usize::MAX,
                    digit >= 0;
        }
        i = i + 1;
    }
    assert(d@.subrange(0, n - start) =~= d@);
    if overflow {
        None
    } else {
        Some(acc)
    }
}

/// The views of a sequence of strings.
pub open spec fn views(toks: Seq<String>) -> Seq<Seq<char>> {
    Seq::new(toks.len(), |i: int| toks[i]@)
}

/// The child of `v` that the decoded token `t` addresses.
fn child_ref<'a>(v: &'a Value, t: &String) -> (r: Option<&'a Value>)
    ensures
        r is Some <==> child(*v, t@) is Some,
        r is Some ==> *r->0 == child(*v, t@)->0,
{
    match v {
        Value::Object(o) => match find_entry(o, t) {
            Some(j) => Some(&o[j].1),
            None => None,
        },
        Value::Array(a) => match parse_index(t.as_str()) {
            Some(i) => {
                if i < a.len() {
                    Some(&a[i])
                } else {
                    None
                }
            },
            None => None,
        },
        _ => None,
    }
}

/// The node that the decoded tokens `toks` address in `v`.
fn resolve_ref<'a>(v: &'a Value, toks: &Vec<String>) -> (r: Option<&'a Value>)
    ensures
        r is Some <==> resolve(*v, views(toks@)) is Some,
        r is Some ==> *r->0 == resolve(*v, views(toks@))->0,
{
    let ghost tv = views(toks@);
    let n = toks.len();
    let mut cur: &'a Value = v;
    let mut i: usize = 0;
    assert(tv.subrange(0, n as int) =~= tv);
    while i < n
        invariant
            n == toks@.len(),
            tv == views(toks@),
            i <= n,
            resolve(*v, tv) == resolve(*cur, tv.subrange(i as int, n as int)),
        decreases n - i,
    {
        assert(tv.subrange(i as int, n as int).drop_first() =~= tv.subrange(i + 1, n as int));
        assert(tv.subrange(i as int, n as int)[0] == toks@[i as int]@);
        match child_ref(cur, &toks[i]) {
            Some(c) => {
                cur = c;
            },
            None => {
                return None;
            },
        }
        i = i + 1;
    }
    assert(tv.subrange(n as int, n as int).len() == 0);
    Some(cur)
}

/// Descends from `v` along `toks[i..]`, which address an existing node.
fn descend_mut<'a>(v: &'a mut Value, toks: &Vec<String>, i: usize) -> (r: &'a mut Value)
    requires
        i <= toks@.len(),
        resolve(*old(v), views(toks@).subrange(i as int, toks@.len() as int)) is Some,
    ensures
        *r == resolve(*old(v), views(toks@).subrange(i as int, toks@.len() as int))->0,
        replaced(*old(v), views(toks@).subrange(i as int, toks@.len() as int), *final(r), *final(v)),
    decreases toks@.len() - i,
{
    let ghost rest = views(toks@).subrange(i as int, toks@.len() as int);
    if i == toks.len() {
        return v;
    }
    assert(rest.drop_first() =~= views(toks@).subrange(i + 1, toks@.len() as int));
    assert(rest[0] == toks@[i as int]@);
    match v {
        Value::Object(o) => {
            let j = find_entry(o, &toks[i]).unwrap();
            descend_mut(&mut o[j].1, toks, i + 1)
        },
        Value::Array(a) => {
            let j = parse_index(toks[i].as_str()).unwrap();
            descend_mut(&mut a[j], toks, i + 1)
        },
        _ => {
            assert(false);
            v
        },
    }
}

impl ValueExt for Value {
    open spec fn node_at(&self, toks: Seq<Seq<char>>) -> Option<Value> {
        resolve(*self, toks)
    }

    open spec fn with_node_at(&self, toks: Seq<Seq<char>>, n: Value, r: Value) -> bool {
        replaced(*self, toks, n, r)
    }

    open spec fn keyed_entry(&self, k: Seq<char>) -> Option<Option<Value>> {
        match *self {
            Value::Object(o) => Some(entry_value(o@, k)),
            _ => None,
        }
    }

    open spec fn with_entry(&self, k: Seq<char>, x: Value, r: Value) -> bool {
        object_set(*self, k, x, r)
    }

    fn pointer(&self, pointer: &Pointer) -> (r: Option<&Value>) {
        let toks = pointer.tokenize();
        assert(views(toks@) =~= tokens_of(pointer@));
        resolve_ref(self, &toks)
    }

    fn pointer_mut(&mut self, pointer: &Pointer) -> (r: Option<&mut Value>) {
        let toks = pointer.tokenize();
        assert(views(toks@) =~= tokens_of(pointer@));
        assert(views(toks@).subrange(0, toks@.len() as int) =~= views(toks@));
        if resolve_ref(self, &toks).is_none() {
            return None;
        }
        Some(descend_mut(self, &toks, 0))
    }

    fn insert(&mut self, key: String, value: Value) -> (r: Result<Option<Value>, Error>) {
        match self {
            Value::Object(o) => {
                let ghost before = o@;
                match find_entry(o, &key) {
                    Some(j) => {
                        let mut previous = value;
                        std::mem::swap(&mut o[j].1, &mut previous);
                        assert(o@ =~= before.update(j as int, (before[j as int].0, value)));
                        Ok(Some(previous))
                    },
                    None => {
                        o.push((key, value));
                        assert(o@.drop_last() =~= before);
                        Ok(None)
                    },
                }
            },
            _ => Err(Error::UnsupportedInsertion),
        }
    }

    fn insert_at(&mut self, pointer: &Pointer, value: Value) -> (r: Result<Option<Value>, Error>) {
        if pointer.is_root() {
            let mut previous = value;
            std::mem::swap(self, &mut previous);
            return Ok(Some(previous));
        }
        let parent = pointer.parent().unwrap();
        let key = pointer.key().unwrap();
        match self.pointer(&parent) {
            None => {
                return Err(Error::KeyNotFound);
            },
            Some(Value::Object(_)) => {},
            Some(_) => {
                return Err(Error::UnsupportedInsertion);
            },
        }
        let node = self.pointer_mut(&parent).unwrap();
        node.insert(key, value)
    }
}

} // verus!
