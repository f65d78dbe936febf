use vstd::prelude::*;

use crate::error::Error;

verus! {

/// A pointer text is the empty string (the root) or starts with `/`.
pub open spec fn valid_text(s: Seq<char>) -> bool {
    s.len() == 0 || s[0] == '/'
}

/// Index of the last `/` of `s`, or `-1` when `s` holds none.
pub open spec fn last_slash(s: Seq<char>) -> int
    decreases s.len(),
{
    if s.len() == 0 {
        -1
    } else if s.last() == '/' {
        s.len() - 1
    } else {
        last_slash(s.drop_last())
    }
}

/// Number of `/` in `s`: the number of reference tokens of a pointer text.
pub open spec fn depth_of(s: Seq<char>) -> nat
    decreases s.len(),
{
    if s.len() == 0 {
        0
    } else {
        depth_of(s.drop_last()) + if s.last() == '/' { 1nat } else { 0nat }
    }
}

/// The text before the last `/`; `s` itself when it holds no `/`.
pub open spec fn parent_text(s: Seq<char>) -> Seq<char> {
    if last_slash(s) < 0 {
        s
    } else {
        s.subrange(0, last_slash(s))
    }
}

/// The encoded last token: the text after the last `/`.
pub open spec fn raw_key(s: Seq<char>) -> Seq<char> {
    s.subrange(last_slash(s) + 1, s.len() as int)
}

/// The parent of a pointer text, `None` for one without tokens.
pub open spec fn parent_of(s: Seq<char>) -> Option<Seq<char>> {
    if last_slash(s) < 0 {
        None
    } else {
        Some(parent_text(s))
    }
}

/// The ancestor `k` levels above `s` (`s` itself for `k == 0`).
pub open spec fn up(s: Seq<char>, k: nat) -> Seq<char>
    decreases k,
{
    if k == 0 {
        s
    } else {
        parent_text(up(s, (k - 1) as nat))
    }
}

/// `s`, its parent, its parent's parent, and so on down to the root.
pub open spec fn ancestry(s: Seq<char>) -> Seq<Seq<char>> {
    Seq::new(depth_of(s) + 1, |k: int| up(s, k as nat))
}

/// Replaces each `~` followed by `digit` with `lit`, scanning left to right.
pub open spec fn unescape(s: Seq<char>, digit: char, lit: char) -> Seq<char>
    decreases s.len(),
{
    if s.len() == 0 {
        s
    } else if s.len() >= 2 && s[0] == '~' && s[1] == digit {
        seq![lit] + unescape(s.subrange(2, s.len() as int), digit, lit)
    } else {
        seq![s[0]] + unescape(s.subrange(1, s.len() as int), digit, lit)
    }
}


/// Decodes a reference token: `~1` becomes `/`, then `~0` becomes `~`.
pub open spec fn decode(s: Seq<char>) -> Seq<char> {
    unescape(unescape(s, '1', '/'), '0', '~')
}

/// Encodes a key as a reference token: `~` becomes `~0` and `/` becomes `~1`.
pub open spec fn encode(t: Seq<char>) -> Seq<char>
    decreases t.len(),
{
    if t.len() == 0 {
        t
    } else if t[0] == '~' {
        seq!['~', '0'] + encode(t.subrange(1, t.len() as int))
    } else if t[0] == '/' {
        seq!['~', '1'] + encode(t.subrange(1, t.len() as int))
    } else {
        seq![t[0]] + encode(t.subrange(1, t.len() as int))
    }
}

/// The decoded reference tokens of `s`, from the first to the last.
pub open spec fn tokens_of(s: Seq<char>) -> Seq<Seq<char>> {
    Seq::new(depth_of(s), |i: int| decode(raw_key(up(s, (depth_of(s) - 1 - i) as nat))))
}

/// Lexicographic order of two texts, character by character.
pub open spec fn lex_cmp(a: Seq<char>, b: Seq<char>) -> core::cmp::Ordering
    decreases a.len(),
{
    if a.len() == 0 {
        if b.len() == 0 {
            core::cmp::Ordering::Equal
        } else {
            core::cmp::Ordering::Less
        }
    } else if b.len() == 0 {
        core::cmp::Ordering::Greater
    } else if (a[0] as u32) < (b[0] as u32) {
        core::cmp::Ordering::Less
    } else if (a[0] as u32) > (b[0] as u32) {
        core::cmp::Ordering::Greater
    } else {
        lex_cmp(a.subrange(1, a.len() as int), b.subrange(1, b.len() as int))
    }
}

/// Pointer order: by depth first, then lexicographically.
pub open spec fn pointer_cmp(a: Seq<char>, b: Seq<char>) -> core::cmp::Ordering {
    if depth_of(a) < depth_of(b) {
        core::cmp::Ordering::Less
    } else if depth_of(a) > depth_of(b) {
        core::cmp::Ordering::Greater
    } else {
        lex_cmp(a, b)
    }
}

/// Facts on the last `/` of a text.
pub proof fn lemma_last_slash(s: Seq<char>)
    ensures
        -1 <= last_slash(s) < s.len(),
        last_slash(s) >= 0 ==> s[last_slash(s)] == '/',
        forall|j: int| last_slash(s) < j < s.len() ==> s[j] != '/',
        last_slash(s) < 0 <==> depth_of(s) == 0,
        last_slash(s) >= 0 ==> depth_of(s.subrange(0, last_slash(s))) + 1 == depth_of(s),
    decreases s.len(),
{
    if s.len() > 0 {
        let t = s.drop_last();
        lemma_last_slash(t);
        if s.last() != '/' {
            assert forall|j: int| last_slash(s) < j < s.len() implies s[j] != '/' by {
                if j < t.len() {
                    assert(s[j] == t[j]);
                }
            }
            if last_slash(t) >= 0 {
                assert(s.subrange(0, last_slash(s)) =~= t.subrange(0, last_slash(t)));
            }
        }
        if s.last() == '/' {
            assert(s.subrange(0, last_slash(s)) =~= t);
        }
    }
}

/// A text whose characters after `j` hold no `/`, with one at `j`, has its last `/` at `j`.
pub proof fn lemma_last_slash_at(s: Seq<char>, j: int)
    requires
        -1 <= j < s.len(),
        j >= 0 ==> s[j] == '/',
        forall|m: int| j < m < s.len() ==> s[m] != '/',
    ensures
        last_slash(s) == j,
{
    lemma_last_slash(s);
    if last_slash(s) > j {
        assert(s[last_slash(s)] == '/');
    }
    if last_slash(s) < j {
        assert(s[j] == '/');
    }
}

/// The ancestor `k` levels up has `k` tokens fewer, and a valid text stays valid.
pub proof fn lemma_up(s: Seq<char>, k: nat)
    requires
        k <= depth_of(s),
    ensures
        depth_of(up(s, k)) + k == depth_of(s),
        up(s, k).len() <= s.len(),
        valid_text(s) ==> valid_text(up(s, k)),
    decreases k,
{
    if k > 0 {
        lemma_up(s, (k - 1) as nat);
        let t = up(s, (k - 1) as nat);
        lemma_last_slash(t);
        lemma_parent_valid(t);
    }
}

/// The parent text of a valid text is valid, and shorter when it exists.
pub proof fn lemma_parent_valid(s: Seq<char>)
    ensures
        valid_text(s) ==> valid_text(parent_text(s)),
        last_slash(s) >= 0 ==> parent_text(s).len() < s.len(),
        valid_text(s) ==> (last_slash(s) < 0 <==> s.len() == 0),
{
    lemma_last_slash(s);
    if valid_text(s) && s.len() > 0 {
        assert(s[0] == '/');
        lemma_last_slash(s);
        if last_slash(s) < 0 {
            assert(s[0] != '/');
        }
    }
}


/// Replaces each `~` with `~0`, leaving every other character as it is.
pub open spec fn escape_tilde(t: Seq<char>) -> Seq<char>
    decreases t.len(),
{
    if t.len() == 0 {
        t
    } else if t[0] == '~' {
        seq!['~', '0'] + escape_tilde(t.subrange(1, t.len() as int))
    } else {
        seq![t[0]] + escape_tilde(t.subrange(1, t.len() as int))
    }
}

proof fn lemma_unescape_slash_of_encode(t: Seq<char>)
    ensures
        unescape(encode(t), '1', '/') == escape_tilde(t),
    decreases t.len(),
{
    if t.len() > 0 {
        let rest = t.subrange(1, t.len() as int);
        lemma_unescape_slash_of_encode(rest);
        let e = encode(t);
        let er = encode(rest);
        if t[0] == '~' {
            assert(e.subrange(1, e.len() as int) =~= seq!['0'] + er);
            let e1 = e.subrange(1, e.len() as int);
            assert(e1.subrange(1, e1.len() as int) =~= er);
            assert(e[0] == '~' && e[1] == '0' && e1[0] == '0');
            assert(unescape(e1, '1', '/') == seq!['0'] + unescape(er, '1', '/'));
            assert(unescape(e, '1', '/') == seq!['~'] + unescape(e1, '1', '/'));
            assert(unescape(e, '1', '/') =~= seq!['~', '0'] + unescape(er, '1', '/'));
        } else if t[0] == '/' {
            assert(e.subrange(2, e.len() as int) =~= er);
        } else {
            assert(e.subrange(1, e.len() as int) =~= er);
        }
    }
}

proof fn lemma_unescape_tilde_of_escape(t: Seq<char>)
    ensures
        unescape(escape_tilde(t), '0', '~') == t,
    decreases t.len(),
{
    if t.len() > 0 {
        let rest = t.subrange(1, t.len() as int);
        lemma_unescape_tilde_of_escape(rest);
        let e = escape_tilde(t);
        if t[0] == '~' {
            assert(e.subrange(2, e.len() as int) =~= escape_tilde(rest));
        } else {
            assert(e.subrange(1, e.len() as int) =~= escape_tilde(rest));
        }
        assert(t =~= seq![t[0]] + rest);
    }
}

/// Decoding an encoded key gives the key back, whatever `~` and `/` it holds.
pub proof fn lemma_decode_encode(t: Seq<char>)
    ensures
        decode(encode(t)) == t,
{
    lemma_unescape_slash_of_encode(t);
    lemma_unescape_tilde_of_escape(t);
}

/// The parent of a valid non-root pointer text is valid, one token shallower,
/// and is the parent of that text.
pub proof fn lemma_parent_is_parent(s: Seq<char>)
    requires
        valid_text(s),
        s.len() > 0,
    ensures
        parent_of(s) is Some,
        valid_text(parent_of(s)->0),
        depth_of(parent_of(s)->0) + 1 == depth_of(s),
        parent_of(s) == Some(parent_text(s)),
{
    lemma_parent_valid(s);
    lemma_last_slash(s);
}

/// Going up `k` levels from the parent is going up `k + 1` levels.
pub proof fn lemma_up_parent(s: Seq<char>, k: nat)
    ensures
        up(parent_text(s), k) == up(s, k + 1),
    decreases k,
{
    if k > 0 {
        lemma_up_parent(s, (k - 1) as nat);
        assert(up(parent_text(s), k) == parent_text(up(parent_text(s), (k - 1) as nat)));
        assert(up(s, k + 1) == parent_text(up(s, k)));
    } else {
        assert(up(s, 1) == parent_text(up(s, 0)));
    }
}

/// The tokens of a valid non-root text are those of its parent, then its key.
pub proof fn lemma_tokens_of_parent(s: Seq<char>)
    requires
        valid_text(s),
        s.len() > 0,
    ensures
        tokens_of(s) == tokens_of(parent_text(s)).push(decode(raw_key(s))),
{
    lemma_parent_is_parent(s);
    let p = parent_text(s);
    let d = depth_of(s);
    assert forall|i: int| 0 <= i < d - 1 implies tokens_of(s)[i] == tokens_of(p)[i] by {
        lemma_up_parent(s, (d - 2 - i) as nat);
        assert((d - 2 - i) as nat + 1 == (d - 1 - i) as nat);
    }
    assert(tokens_of(s)[d - 1] == decode(raw_key(s)));
    assert(tokens_of(s) =~= tokens_of(p).push(decode(raw_key(s))));
}

/// The ancestors of a valid pointer text number one more than its depth,
/// start at the text itself and end at the root.
pub proof fn lemma_ancestry(s: Seq<char>)
    requires
        valid_text(s),
    ensures
        ancestry(s).len() == depth_of(s) + 1,
        ancestry(s)[0] == s,
        ancestry(s).contains(s),
        ancestry(s).last() == Seq::<char>::empty(),
{
    lemma_up(s, depth_of(s));
    let r = up(s, depth_of(s));
    lemma_last_slash(r);
    lemma_parent_valid(r);
    assert(ancestry(s)[0] == s);
    assert(r =~= Seq::<char>::empty());
}

/// Pointers are ordered by depth before their text: a shallower one comes first.
pub proof fn lemma_shallower_first(a: Seq<char>, b: Seq<char>)
    requires
        depth_of(a) < depth_of(b),
    ensures
        pointer_cmp(a, b) == core::cmp::Ordering::Less,
        pointer_cmp(b, a) == core::cmp::Ordering::Greater,
{
}

/// Position of the last `/` of `s`, if any.
fn find_last_slash(s: &str) -> (r: Option<usize>)
    ensures
        r is None <==> last_slash(s@) < 0,
        r is Some ==> r->0 == last_slash(s@),
        r is Some ==> r->0 < s@.len(),
{
    let n = s.unicode_len();
    let mut j: usize = n;
    while j > 0
        invariant
            n == s@.len(),
            j <= n,
            forall|m: int| j <= m < n ==> s@[m] != '/',
        decreases j,
    {
        if s.get_char(j - 1) == '/' {
            proof {
                lemma_last_slash_at(s@, j - 1);
            }
            return Some(j - 1);
        }
        j = j - 1;
    }
    proof {
        lemma_last_slash_at(s@, -1);
    }
    None
}

/// One left-to-right scan that replaces each `~` followed by `digit` with `lit`.
fn unescape_scan(s: &str, digit: char, lit: &str, lit_char: char) -> (r: String)
    requires
        lit@ == seq![lit_char],
    ensures
        r@ == unescape(s@, digit, lit_char),
{
    let n = s.unicode_len();
    let mut out = String::new();
    let mut i: usize = 0;
    assert(s@.subrange(0, n as int) =~= s@);
    assert(out@ + s@ =~= s@);
    while i < n
        invariant
            n == s@.len(),
            i <= n,
            lit@ == seq![lit_char],
            out@ + unescape(s@.subrange(i as int, n as int), digit, lit_char) == unescape(s@, digit, lit_char),
        decreases n - i,
    {
        let rest = Ghost(s@.subrange(i as int, n as int));
        if i + 1 < n && s.get_char(i) == '~' && s.get_char(i + 1) == digit {
            assert(rest@.subrange(2, rest@.len() as int) =~= s@.subrange(i + 2, n as int));
            out.append(lit);
            assert(out@ + unescape(s@.subrange(i + 2, n as int), digit, lit_char) =~= unescape(s@, digit, lit_char));
            i = i + 2;
        } else {
            assert(rest@.subrange(1, rest@.len() as int) =~= s@.subrange(i + 1, n as int));
            let c = s.substring_char(i, i + 1);
            out.append(c);
            assert(c@ =~= seq![rest@[0]]);
            assert(out@ + unescape(s@.subrange(i + 1, n as int), digit, lit_char) =~= unescape(s@, digit, lit_char));
            i = i + 1;
        }
    }
    assert(unescape(s@.subrange(n as int, n as int), digit, lit_char) =~= Seq::<char>::empty());
    assert(out@ + Seq::<char>::empty() =~= out@);
    out
}

/// Compares two texts character by character.
fn lex_compare(a: &str, b: &str) -> (r: core::cmp::Ordering)
    ensures
        r == lex_cmp(a@, b@),
{
    let na = a.unicode_len();
    let nb = b.unicode_len();
    let mut i: usize = 0;
    assert(a@.subrange(0, na as int) =~= a@);
    assert(b@.subrange(0, nb as int) =~= b@);
    while i < na && i < nb
        invariant
            na == a@.len(),
            nb == b@.len(),
            i <= na,
            i <= nb,
            lex_cmp(a@, b@) == lex_cmp(a@.subrange(i as int, na as int), b@.subrange(i as int, nb as int)),
        decreases na - i,
    {
        let x = a.get_char(i) as u32;
        let y = b.get_char(i) as u32;
        if x < y {
            return core::cmp::Ordering::Less;
        } else if x > y {
            return core::cmp::Ordering::Greater;
        }
        let ra = Ghost(a@.subrange(i as int, na as int));
        let rb = Ghost(b@.subrange(i as int, nb as int));
        assert(ra@.subrange(1, ra@.len() as int) =~= a@.subrange(i + 1, na as int));
        assert(rb@.subrange(1, rb@.len() as int) =~= b@.subrange(i + 1, nb as int));
        i = i + 1;
    }
    if i < na {
        core::cmp::Ordering::Greater
    } else if i < nb {
        core::cmp::Ordering::Less
    } else {
        core::cmp::Ordering::Equal
    }
}

/// Decodes a reference token: `~1` becomes `/`, then `~0` becomes `~`.
pub fn decode_token(s: &str) -> (r: String)
    ensures
        r@ == decode(s@),
{
    proof {
        reveal_strlit("/");
        reveal_strlit("~");
        assert("/"@ =~= seq!['/']);
        assert("~"@ =~= seq!['~']);
    }
    let first = unescape_scan(s, '1', "/", '/');
    unescape_scan(first.as_str(), '0', "~", '~')
}

/// A pointer: an RFC 6901 text held in encoded form.
///
/// Pointers are ordered by depth first, then lexicographically on their text.
#[derive(Debug, Hash)]
pub struct Pointer {
    text: String,
}

impl View for Pointer {
    type V = Seq<char>;

    closed spec fn view(&self) -> Seq<char> {
        self.text@
    }
}

impl Clone for Pointer {
    fn clone(&self) -> (r: Pointer)
        ensures
            r@ == self@,
            valid_text(r@),
    {
        proof {
            use_type_invariant(self);
        }
        Pointer { text: self.text.clone() }
    }
}

impl Pointer {
    #[verifier::type_invariant]
    spec fn inv(self) -> bool {
        valid_text(self.text@)
    }

    /// Builds a pointer from its text: the empty text or one that starts with `/`.
    pub fn new(s: &str) -> (r: Result<Pointer, Error>)
        ensures
            valid_text(s@) <==> r is Ok,
            r is Ok ==> r->Ok_0@ == s@ && valid_text(r->Ok_0@),
            r is Err ==> r->Err_0 == Error::MissingLeadingSlash,
    {
        if !s.is_empty() && s.get_char(0) != '/' {
            Err(Error::MissingLeadingSlash)
        } else {
            Ok(Pointer { text: String::from_str(s) })
        }
    }

    /// The root pointer, whose text is empty.
    pub fn root() -> (r: Pointer)
        ensures
            r@ == Seq::<char>::empty(),
            valid_text(r@),
    {
        Pointer { text: String::new() }
    }

    /// Whether this is the root pointer.
    pub fn is_root(&self) -> (r: bool)
        ensures
            r == (self@.len() == 0),
    {
        self.text.as_str().is_empty()
    }

    /// The encoded text of the pointer.
    pub fn as_str(&self) -> (r: &str)
        ensures
            r@ == self@,
    {
        self.text.as_str()
    }

    /// The decoded last reference token; `None` for the root.
    pub fn key(&self) -> (r: Option<String>)
        ensures
            r is None <==> self@.len() == 0,
            r is Some ==> r->0@ == decode(raw_key(self@)),
    {
        proof {
            use_type_invariant(self);
            lemma_parent_valid(self@);
        }
        let s = self.text.as_str();
        match find_last_slash(s) {
            Some(j) => {
                let n = s.unicode_len();
                Some(decode_token(s.substring_char(j + 1, n)))
            },
            None => None,
        }
    }

    /// The pointer without its last token; `None` for the root.
    pub fn parent(&self) -> (r: Option<Pointer>)
        ensures
            r is None <==> self@.len() == 0,
            r is None <==> parent_of(self@) is None,
            r is Some ==> Some(r->0@) == parent_of(self@),
            r is Some ==> valid_text(r->0@),
    {
        proof {
            use_type_invariant(self);
            lemma_parent_valid(self@);
            lemma_last_slash(self@);
        }
        let s = self.text.as_str();
        match find_last_slash(s) {
            Some(j) => Some(Pointer { text: String::from_str(s.substring_char(0, j)) }),
            None => None,
        }
    }

    /// Every ancestor of the pointer: itself, its parent, and so on down to the root.
    pub fn ancestors(&self) -> (r: Vec<Pointer>)
        ensures
            r@.len() == depth_of(self@) + 1,
            forall|k: int| 0 <= k < r@.len() ==> #[trigger] r@[k]@ == up(self@, k as nat),
            forall|k: int| 0 <= k < r@.len() ==> valid_text(#[trigger] r@[k]@),
    {
        proof {
            use_type_invariant(self);
        }
        let mut out: Vec<Pointer> = Vec::new();
        let mut cur: Pointer = self.clone();
        loop
            invariant
                valid_text(self@),
                out@.len() <= depth_of(self@),
                cur@ == up(self@, out@.len() as nat),
                forall|k: int| 0 <= k < out@.len() ==> #[trigger] out@[k]@ == up(self@, k as nat),
                forall|k: int| 0 <= k < out@.len() ==> valid_text(#[trigger] out@[k]@),
            decreases depth_of(self@) - out@.len(),
        {
            let next = cur.parent();
            proof {
                lemma_up(self@, out@.len() as nat);
                lemma_last_slash(cur@);
            }
            out.push(cur);
            match next {
                Some(p) => {
                    cur = p;
                },
                None => {
                    return out;
                },
            }
        }
    }

    /// Whether this pointer is one of the ancestors of `other` (itself included).
    pub fn is_ancestor_of(&self, other: &Pointer) -> (r: bool)
        ensures
            r == exists|k: nat| k <= depth_of(other@) && #[trigger] up(other@, k) == self@,
    {
        let a = other.ancestors();
        let mut i: usize = 0;
        while i < a.len()
            invariant
                a@.len() == depth_of(other@) + 1,
                forall|k: int| 0 <= k < a@.len() ==> #[trigger] a@[k]@ == up(other@, k as nat),
                i <= a@.len(),
                forall|k: nat| k < i ==> #[trigger] up(other@, k) != self@,
            decreases a@.len() - i,
        {
            assert(a@[i as int]@ == up(other@, i as nat));
            if a[i].text == self.text {
                assert(up(other@, i as nat) == self@);
                return true;
            }
            i = i + 1;
        }
        false
    }

    /// Whether `other` is exactly one token below this pointer.
    pub fn is_parent_of(&self, other: &Pointer) -> (r: bool)
        ensures
            r == (parent_of(other@) == Some(self@)),
    {
        match other.parent() {
            Some(p) => p.text == self.text,
            None => false,
        }
    }

    /// Whether `other` differs from this pointer and has the same parent.
    pub fn is_sibling_of(&self, other: &Pointer) -> (r: bool)
        ensures
            r == (self@ != other@ && parent_of(self@) == parent_of(other@)),
    {
        if self.text == other.text {
            return false;
        }
        match (self.parent(), other.parent()) {
            (Some(a), Some(b)) => a.text == b.text,
            (None, None) => true,
            _ => false,
        }
    }

    /// An owned copy of the pointer.
    pub fn into_owned(self) -> (r: Pointer)
        ensures
            r@ == self@,
            valid_text(r@),
    {
        proof {
            use_type_invariant(&self);
        }
        self
    }

    /// The decoded reference tokens, from the first to the last.
    pub fn tokenize(&self) -> (r: Vec<String>)
        ensures
            r@.len() == tokens_of(self@).len(),
            forall|i: int| 0 <= i < r@.len() ==> #[trigger] r@[i]@ == tokens_of(self@)[i],
    {
        proof {
            use_type_invariant(self);
        }
        let a = self.ancestors();
        let d = self.depth();
        let mut out: Vec<String> = Vec::new();
        let mut i: usize = 0;
        while i < d
            invariant
                valid_text(self@),
                d == depth_of(self@),
                a@.len() == d + 1,
                forall|k: int| 0 <= k < a@.len() ==> #[trigger] a@[k]@ == up(self@, k as nat),
                i <= d,
                out@.len() == i,
                forall|m: int| 0 <= m < i ==> #[trigger] out@[m]@ == tokens_of(self@)[m],
            decreases d - i,
        {
            let j = d - 1 - i;
            proof {
                lemma_up(self@, j as nat);
                lemma_parent_valid(up(self@, j as nat));
                lemma_last_slash(up(self@, j as nat));
            }
            let t = a[j].key();
            out.push(t.unwrap());
            i = i + 1;
        }
        out
    }

    /// Compares by depth first, then lexicographically on the text.
    pub fn cmp(&self, other: &Pointer) -> (r: core::cmp::Ordering)
        ensures
            r == pointer_cmp(self@, other@),
    {
        let da = self.depth();
        let db = other.depth();
        if da < db {
            core::cmp::Ordering::Less
        } else if da > db {
            core::cmp::Ordering::Greater
        } else {
            lex_compare(self.text.as_str(), other.text.as_str())
        }
    }

    /// The number of reference tokens.
    pub fn depth(&self) -> (r: usize)
        ensures
            r == depth_of(self@),
    {
        let s = self.text.as_str();
        let n = s.unicode_len();
        let mut count: usize = 0;
        let mut i: usize = 0;
        while i < n
            invariant
                n == s@.len(),
                i <= n,
                count == depth_of(s@.subrange(0, i as int)),
                count <= i,
            decreases n - i,
        {
            assert(s@.subrange(0, i + 1).drop_last() =~= s@.subrange(0, i as int));
            if s.get_char(i) == '/' {
                count = count + 1;
            }
            i = i + 1;
        }
        assert(s@.subrange(0, n as int) =~= s@);
        count
    }
}

impl core::str::FromStr for Pointer {
    type Err = Error;

    fn from_str(s: &str) -> Result<Pointer, Error> {
        Pointer::new(s)
    }
}

impl AsRef<str> for Pointer {
    fn as_ref(&self) -> &str {
        self.as_str()
    }
}

impl PartialEq for Pointer {
    fn eq(&self, other: &Pointer) -> (r: bool) {
        self.text == other.text
    }
}

impl vstd::std_specs::cmp::PartialEqSpecImpl for Pointer {
    open spec fn obeys_eq_spec() -> bool {
        true
    }

    open spec fn eq_spec(&self, other: &Pointer) -> bool {
        self@ == other@
    }
}

impl Eq for Pointer {
}

impl PartialOrd for Pointer {
    fn partial_cmp(&self, other: &Pointer) -> (r: Option<core::cmp::Ordering>) {
        Some(self.cmp(other))
    }
}

impl vstd::std_specs::cmp::PartialOrdSpecImpl for Pointer {
    open spec fn obeys_partial_cmp_spec() -> bool {
        true
    }

    open spec fn partial_cmp_spec(&self, other: &Pointer) -> Option<core::cmp::Ordering> {
        Some(pointer_cmp(self@, other@))
    }
}

} // verus!
