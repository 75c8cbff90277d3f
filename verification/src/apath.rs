use vstd::prelude::*;

verus! {

/// Byte value of `/`, the apath component separator.
pub const SLASH: u8 = 47;

/// A normalized absolute path within the archive.
///
/// Invariants: always begins with `/`, has no empty components, and no
/// trailing slash except for the root `"/"` itself.  Plain lexicographic
/// order on the bytes places every directory before its descendants.
pub struct Apath {
    bytes: Vec<u8>,
}

/// Validity of an apath's byte string.
pub open spec fn valid_apath(s: Seq<u8>) -> bool {
    &&& 1 <= s.len()
    &&& s[0] == SLASH
    &&& (s.len() > 1 ==> s[s.len() - 1] != SLASH)
    &&& (forall|i: int| 0 < i < s.len() ==> !(s[i - 1] == SLASH && #[trigger] s[i] == SLASH))
}

/// Strict lexicographic order on byte strings.
pub open spec fn lex_lt(a: Seq<u8>, b: Seq<u8>) -> bool
    decreases a.len(),
{
    if b.len() == 0 {
        false
    } else if a.len() == 0 {
        true
    } else if a[0] < b[0] {
        true
    } else if a[0] == b[0] {
        lex_lt(a.skip(1), b.skip(1))
    } else {
        false
    }
}

/// `a` names a directory strictly above `b`: `a` is a proper prefix of `b`
/// ending at a component boundary.
pub open spec fn is_ancestor(a: Seq<u8>, b: Seq<u8>) -> bool {
    &&& a.len() < b.len()
    &&& b.take(a.len() as int) == a
    &&& (a.len() == 1 || b[a.len() as int] == SLASH)
}

/// `a` lies at or below the directory `prefix`.
pub open spec fn in_subtree(prefix: Seq<u8>, a: Seq<u8>) -> bool {
    a == prefix || is_ancestor(prefix, a)
}

/// A sequence of apaths in strictly ascending lexicographic order.
pub open spec fn strictly_sorted(apaths: Seq<Seq<u8>>) -> bool {
    forall|i: int, j: int|
        0 <= i < j < apaths.len() ==> lex_lt(#[trigger] apaths[i], #[trigger] apaths[j])
}

pub proof fn lemma_lex_lt_asymmetric(a: Seq<u8>, b: Seq<u8>)
    requires
        lex_lt(a, b),
    ensures
        !lex_lt(b, a),
    decreases a.len(),
{
    if b.len() == 0 {
    } else if a.len() == 0 {
    } else if a[0] < b[0] {
    } else if a[0] == b[0] {
        lemma_lex_lt_asymmetric(a.skip(1), b.skip(1));
    }
}

pub proof fn lemma_lex_lt_transitive(a: Seq<u8>, b: Seq<u8>, c: Seq<u8>)
    requires
        lex_lt(a, b),
        lex_lt(b, c),
    ensures
        lex_lt(a, c),
    decreases a.len(),
{
    if a.len() == 0 {
        assert(c.len() > 0);
    } else {
        assert(b.len() > 0);
        assert(c.len() > 0);
        if a[0] == b[0] && b[0] == c[0] {
            lemma_lex_lt_transitive(a.skip(1), b.skip(1), c.skip(1));
        }
    }
}

/// A proper prefix is lexicographically smaller.
pub proof fn lemma_strict_prefix_lex_lt(a: Seq<u8>, b: Seq<u8>)
    requires
        a.len() < b.len(),
        b.take(a.len() as int) == a,
    ensures
        lex_lt(a, b),
    decreases a.len(),
{
    if a.len() == 0 {
    } else {
        assert(a[0] == b.take(a.len() as int)[0]);
        assert(b.skip(1).take(a.len() - 1) =~= a.skip(1));
        lemma_strict_prefix_lex_lt(a.skip(1), b.skip(1));
    }
}

/// Every directory sorts before its descendants.
pub proof fn lemma_ancestor_lex_lt(a: Seq<u8>, b: Seq<u8>)
    requires
        is_ancestor(a, b),
    ensures
        lex_lt(a, b),
{
    lemma_strict_prefix_lex_lt(a, b);
}

/// Appending an apath greater than the last keeps a sequence sorted.
pub proof fn lemma_sorted_push(apaths: Seq<Seq<u8>>, x: Seq<u8>)
    requires
        strictly_sorted(apaths),
        apaths.len() > 0 ==> lex_lt(apaths[apaths.len() - 1], x),
    ensures
        strictly_sorted(apaths.push(x)),
{
    let pushed = apaths.push(x);
    assert forall|i: int, j: int| 0 <= i < j < pushed.len() implies lex_lt(
        #[trigger] pushed[i],
        #[trigger] pushed[j],
    ) by {
        if j < apaths.len() {
        } else {
            assert(pushed[j] == x);
            if i < apaths.len() - 1 {
                lemma_lex_lt_transitive(apaths[i], apaths[apaths.len() - 1], x);
            }
        }
    }
}

/// Equality test on byte strings.
pub fn bytes_eq(a: &Vec<u8>, b: &Vec<u8>) -> (r: bool)
    ensures
        r == (a@ == b@),
{
    if a.len() != b.len() {
        return false;
    }
    let n = a.len();
    let mut i: usize = 0;
    while i < n
        invariant
            i <= n,
            n == a@.len(),
            n == b@.len(),
            forall|j: int| 0 <= j < i ==> a@[j] == b@[j],
        decreases n - i,
    {
        if a[i] != b[i] {
            return false;
        }
        i += 1;
    }
    proof {
        assert(a@ =~= b@);
    }
    true
}

/// Lexicographic comparison on byte strings.
pub fn bytes_lt(a: &Vec<u8>, b: &Vec<u8>) -> (r: bool)
    ensures
        r == lex_lt(a@, b@),
{
    let mut i: usize = 0;
    proof {
        assert(a@.skip(0) =~= a@);
        assert(b@.skip(0) =~= b@);
    }
    while i < a.len() && i < b.len()
        invariant
            i <= a@.len(),
            i <= b@.len(),
            lex_lt(a@, b@) == lex_lt(a@.skip(i as int), b@.skip(i as int)),
        decreases a@.len() - i,
    {
        if a[i] < b[i] {
            assert(lex_lt(a@.skip(i as int), b@.skip(i as int)));
            return true;
        }
        if a[i] > b[i] {
            assert(!lex_lt(a@.skip(i as int), b@.skip(i as int)));
            return false;
        }
        proof {
            assert(a@.skip(i as int).skip(1) =~= a@.skip(i + 1));
            assert(b@.skip(i as int).skip(1) =~= b@.skip(i + 1));
        }
        i += 1;
    }
    if i < b.len() {
        assert(lex_lt(a@.skip(i as int), b@.skip(i as int)));
        true
    } else {
        assert(!lex_lt(a@.skip(i as int), b@.skip(i as int)));
        false
    }
}

impl View for Apath {
    type V = Seq<u8>;

    closed spec fn view(&self) -> Seq<u8> {
        self.bytes@
    }
}

impl Apath {
    /// Validate and take ownership of an apath byte string.
    pub fn new(bytes: Vec<u8>) -> (r: Option<Apath>)
        ensures
            r is Some <==> valid_apath(bytes@),
            r is Some ==> r->Some_0@ == bytes@,
    {
        let n = bytes.len();
        if n == 0 {
            return None;
        }
        if bytes[0] != SLASH {
            return None;
        }
        if n > 1 && bytes[n - 1] == SLASH {
            return None;
        }
        let mut i: usize = 1;
        while i < n
            invariant
                1 <= i <= n,
                n == bytes@.len(),
                forall|j: int| 0 < j < i ==> !(bytes@[j - 1] == SLASH && #[trigger] bytes@[j] == SLASH),
            decreases n - i,
        {
            if bytes[i] == SLASH && bytes[i - 1] == SLASH {
                return None;
            }
            i += 1;
        }
        Some(Apath { bytes })
    }

    pub open spec fn wf(&self) -> bool {
        valid_apath(self@)
    }

    /// The apath's bytes, for inspection.
    pub fn as_bytes(&self) -> (r: &Vec<u8>)
        ensures
            r@ == self@,
    {
        &self.bytes
    }

    /// Copy the apath's bytes into an owned vector.
    pub fn to_vec(&self) -> (r: Vec<u8>)
        ensures
            r@ == self@,
    {
        copy_bytes(&self.bytes)
    }

    /// Strict lexicographic comparison.
    pub fn lt(&self, other: &Apath) -> (r: bool)
        ensures
            r == lex_lt(self@, other@),
    {
        bytes_lt(&self.bytes, &other.bytes)
    }

    /// Whether this apath equals `prefix` or lies below it.
    pub fn is_in_subtree(&self, prefix: &Apath) -> (r: bool)
        ensures
            r == in_subtree(prefix@, self@),
    {
        let plen = prefix.bytes.len();
        let n = self.bytes.len();
        if plen == n {
            return bytes_eq(&self.bytes, &prefix.bytes);
        }
        if plen > n {
            return false;
        }
        if !(plen == 1 || self.bytes[plen] == SLASH) {
            return false;
        }
        let mut i: usize = 0;
        while i < plen
            invariant
                i <= plen,
                plen == prefix@.len(),
                plen < n,
                n == self@.len(),
                forall|j: int| 0 <= j < i ==> self@[j] == prefix@[j],
            decreases plen - i,
        {
            if self.bytes[i] != prefix.bytes[i] {
                assert(self@.take(plen as int)[i as int] != prefix@[i as int]);
                return false;
            }
            i += 1;
        }
        proof {
            assert(self@.take(plen as int) =~= prefix@);
        }
        true
    }
}

/// Byte-by-byte copy of a buffer, the in-memory image of a content stream copy.
pub fn copy_bytes(src: &Vec<u8>) -> (r: Vec<u8>)
    ensures
        r@ == src@,
{
    let mut out: Vec<u8> = Vec::new();
    let n = src.len();
    let mut i: usize = 0;
    while i < n
        invariant
            i <= n,
            n == src@.len(),
            out@ == src@.take(i as int),
        decreases n - i,
    {
        out.push(src[i]);
        proof {
            assert(src@.take(i as int).push(src@[i as int]) =~= src@.take(i + 1));
        }
        i += 1;
    }
    proof {
        assert(src@.take(n as int) =~= src@);
    }
    out
}

} // verus!
