//! Stable textual identities of nodes and edges, and their canonical order.
use vstd::prelude::*;
use vstd::string::StringSliceAdditionalSpecFns;

verus! {

/// Largest accepted identity length in bytes.
pub const MAX_ID_BYTES: usize = 128;

/// Bytes that may appear in a node or edge identity.
pub open spec fn id_byte_ok(b: u8) -> bool {
    ||| (48 <= b && b <= 57)
    ||| (65 <= b && b <= 90)
    ||| (97 <= b && b <= 122)
    ||| b == 45
    ||| b == 46
    ||| b == 58
    ||| b == 95
}

/// A well-formed identity: nonempty, bounded, drawn from the accepted bytes.
pub open spec fn valid_id_key(key: Seq<u8>) -> bool {
    &&& 0 < key.len() <= MAX_ID_BYTES
    &&& forall|i: int| 0 <= i < key.len() ==> id_byte_ok(#[trigger] key[i])
}

/// Strict lexicographic order on byte strings.
pub closed spec fn key_lt(a: Seq<u8>, b: Seq<u8>) -> bool
    decreases a.len(),
{
    if a.len() == 0 {
        b.len() > 0
    } else if b.len() == 0 {
        false
    } else if a[0] != b[0] {
        a[0] < b[0]
    } else {
        key_lt(a.drop_first(), b.drop_first())
    }
}

/// The strict order is irreflexive.
pub proof fn lemma_key_lt_irreflexive(a: Seq<u8>)
    ensures
        !key_lt(a, a),
    decreases a.len(),
{
    if a.len() > 0 {
        lemma_key_lt_irreflexive(a.drop_first());
    }
}

/// The strict order is transitive.
pub proof fn lemma_key_lt_transitive(a: Seq<u8>, b: Seq<u8>, c: Seq<u8>)
    requires
        key_lt(a, b),
        key_lt(b, c),
    ensures
        key_lt(a, c),
    decreases a.len(),
{
    if a.len() > 0 && b.len() > 0 && c.len() > 0 && a[0] == b[0] && b[0] == c[0] {
        lemma_key_lt_transitive(a.drop_first(), b.drop_first(), c.drop_first());
    }
}

/// Any two distinct byte strings are ordered one way or the other.
pub proof fn lemma_key_lt_total(a: Seq<u8>, b: Seq<u8>)
    ensures
        a == b || key_lt(a, b) || key_lt(b, a),
    decreases a.len(),
{
    if a.len() > 0 && b.len() > 0 && a[0] == b[0] {
        lemma_key_lt_total(a.drop_first(), b.drop_first());
        if a.drop_first() == b.drop_first() {
            assert(a =~= seq![a[0]] + a.drop_first());
            assert(b =~= seq![b[0]] + b.drop_first());
        }
    } else if a.len() == 0 && b.len() == 0 {
        assert(a =~= b);
    }
}

/// The strict order is asymmetric.
pub proof fn lemma_key_lt_asymmetric(a: Seq<u8>, b: Seq<u8>)
    requires
        key_lt(a, b),
    ensures
        !key_lt(b, a),
{
    if key_lt(b, a) {
        lemma_key_lt_transitive(a, b, a);
        lemma_key_lt_irreflexive(a);
    }
}

proof fn lemma_key_lt_common_prefix(a: Seq<u8>, b: Seq<u8>, i: int)
    requires
        0 <= i <= a.len(),
        i <= b.len(),
        a.take(i) == b.take(i),
    ensures
        key_lt(a, b) == key_lt(a.skip(i), b.skip(i)),
    decreases i,
{
    if i > 0 {
        assert(a[0] == a.take(i)[0]);
        assert(b[0] == b.take(i)[0]);
        assert(a.drop_first().take(i - 1) =~= a.take(i).drop_first());
        assert(b.drop_first().take(i - 1) =~= b.take(i).drop_first());
        lemma_key_lt_common_prefix(a.drop_first(), b.drop_first(), i - 1);
        assert(a.drop_first().skip(i - 1) =~= a.skip(i));
        assert(b.drop_first().skip(i - 1) =~= b.skip(i));
    } else {
        assert(a.skip(0) =~= a);
        assert(b.skip(0) =~= b);
    }
}

/// Three-way comparison of two byte strings: negative, zero or positive.
pub fn compare_keys(a: &Vec<u8>, b: &Vec<u8>) -> (r: i8)
    ensures
        r < 0 <==> key_lt(a@, b@),
        r == 0 <==> a@ == b@,
        r > 0 <==> key_lt(b@, a@),
        -1 <= r <= 1,
{
    let mut i: usize = 0;
    while i < a.len() && i < b.len()
        invariant
            i <= a.len(),
            i <= b.len(),
            a@.take(i as int) == b@.take(i as int),
        decreases a.len() - i,
    {
        if a[i] != b[i] {
            proof {
                lemma_key_lt_common_prefix(a@, b@, i as int);
                lemma_key_lt_common_prefix(b@, a@, i as int);
                assert(a@.skip(i as int)[0] == a@[i as int]);
                assert(b@.skip(i as int)[0] == b@[i as int]);
            }
            if a[i] < b[i] {
                return -1;
            } else {
                return 1;
            }
        }
        proof {
            assert(a@.take(i + 1) =~= a@.take(i as int).push(a@[i as int]));
            assert(b@.take(i + 1) =~= b@.take(i as int).push(b@[i as int]));
        }
        i = i + 1;
    }
    proof {
        lemma_key_lt_common_prefix(a@, b@, i as int);
        lemma_key_lt_common_prefix(b@, a@, i as int);
        if a.len() == b.len() {
            assert(a@ =~= a@.take(i as int));
            assert(b@ =~= b@.take(i as int));
        } else {
            assert(a@.len() != b@.len());
        }
    }
    if a.len() < b.len() {
        -1
    } else if a.len() > b.len() {
        1
    } else {
        0
    }
}

fn parse_key(text: &str) -> (r: Option<Vec<u8>>)
    ensures
        r matches Some(key) ==> key@ == text.spec_bytes() && valid_id_key(key@),
        r is None ==> !valid_id_key(text.spec_bytes()),
{
    let bytes = text.as_bytes();
    if bytes.len() == 0 || bytes.len() > MAX_ID_BYTES {
        return None;
    }
    let mut key: Vec<u8> = Vec::new();
    let mut i: usize = 0;
    while i < bytes.len()
        invariant
            i <= bytes@.len(),
            bytes@ == text.spec_bytes(),
            key@ == bytes@.take(i as int),
            forall|j: int| 0 <= j < i ==> id_byte_ok(#[trigger] bytes@[j]),
        decreases bytes@.len() - i,
    {
        let b = bytes[i];
        if !((48 <= b && b <= 57) || (65 <= b && b <= 90) || (97 <= b && b <= 122) || b == 45
            || b == 46 || b == 58 || b == 95) {
            return None;
        }
        key.push(b);
        proof {
            assert(bytes@.take(i + 1) =~= bytes@.take(i as int).push(b));
        }
        i = i + 1;
    }
    proof {
        assert(bytes@.take(i as int) =~= bytes@);
    }
    Some(key)
}

/// Whether two texts hold the same bytes.
pub(crate) fn same_text(a: &str, b: &str) -> (r: bool)
    ensures
        r == (a.spec_bytes() == b.spec_bytes()),
{
    let x = a.as_bytes();
    let y = b.as_bytes();
    if x.len() != y.len() {
        return false;
    }
    let mut i: usize = 0;
    while i < x.len()
        invariant
            x@ == a.spec_bytes(),
            y@ == b.spec_bytes(),
            x@.len() == y@.len(),
            i <= x@.len(),
            forall|j: int| 0 <= j < i ==> x@[j] == y@[j],
        decreases x@.len() - i,
    {
        if x[i] != y[i] {
            return false;
        }
        i = i + 1;
    }
    proof {
        assert(x@ =~= y@);
    }
    true
}

/// Why an identity was refused.
#[derive(Clone, Copy, Debug, PartialEq, Eq)]
pub enum IdError {
    /// Empty, longer than the limit, or holding a byte outside `[A-Za-z0-9._:-]`.
    Malformed,
}

/// Stable identity of a node.
#[derive(Debug, PartialEq, Eq, Hash, PartialOrd, Ord)]
pub struct NodeId {
    text: String,
    key: Vec<u8>,
}

/// Stable identity of an edge.
#[derive(Debug, PartialEq, Eq, Hash, PartialOrd, Ord)]
pub struct EdgeId {
    text: String,
    key: Vec<u8>,
}

impl View for NodeId {
    type V = Seq<u8>;

    closed spec fn view(&self) -> Seq<u8> {
        self.key@
    }
}

impl Clone for NodeId {
    fn clone(&self) -> (r: Self)
        ensures
            r@ == self@,
    {
        self.duplicate()
    }
}

impl NodeId {
    /// The stored text encodes the key.
    #[verifier::type_invariant]
    spec fn text_encodes_key(self) -> bool {
        vstd::utf8::encode_utf8(self.text@) == self.key@
    }
}

impl View for EdgeId {
    type V = Seq<u8>;

    closed spec fn view(&self) -> Seq<u8> {
        self.key@
    }
}

impl Clone for EdgeId {
    fn clone(&self) -> (r: Self)
        ensures
            r@ == self@,
    {
        self.duplicate()
    }
}

impl EdgeId {
    /// The stored text encodes the key.
    #[verifier::type_invariant]
    spec fn text_encodes_key(self) -> bool {
        vstd::utf8::encode_utf8(self.text@) == self.key@
    }
}

impl NodeId {
    /// Accepts a nonempty identity of at most 128 bytes from `[A-Za-z0-9._:-]`.
    pub fn parse(text: &str) -> (r: Result<NodeId, IdError>)
        ensures
            r matches Ok(id) ==> id@ == text.spec_bytes() && valid_id_key(id@),
            r is Err <==> !valid_id_key(text.spec_bytes()),
    {
        match parse_key(text) {
            Some(key) => Ok(NodeId { text: text.to_owned(), key }),
            None => Err(IdError::Malformed),
        }
    }

    /// The identity's text.
    pub fn as_str(&self) -> (r: &str)
        ensures
            r.spec_bytes() == self@,
    {
        proof {
            use_type_invariant(self);
        }
        self.text.as_str()
    }

    /// A copy with the same identity.
    pub fn duplicate(&self) -> (r: NodeId)
        ensures
            r@ == self@,
    {
        proof {
            use_type_invariant(self);
        }
        let key = self.key.clone();
        proof {
            assert(key@ =~= self.key@);
        }
        NodeId { text: self.text.clone(), key }
    }

    /// Three-way comparison in canonical order.
    pub fn compare(&self, other: &NodeId) -> (r: i8)
        ensures
            r < 0 <==> key_lt(self@, other@),
            r == 0 <==> self@ == other@,
            r > 0 <==> key_lt(other@, self@),
            -1 <= r <= 1,
    {
        compare_keys(&self.key, &other.key)
    }
}

impl EdgeId {
    /// Accepts a nonempty identity of at most 128 bytes from `[A-Za-z0-9._:-]`.
    pub fn parse(text: &str) -> (r: Result<EdgeId, IdError>)
        ensures
            r matches Ok(id) ==> id@ == text.spec_bytes() && valid_id_key(id@),
            r is Err <==> !valid_id_key(text.spec_bytes()),
    {
        match parse_key(text) {
            Some(key) => Ok(EdgeId { text: text.to_owned(), key }),
            None => Err(IdError::Malformed),
        }
    }

    /// The identity's text.
    pub fn as_str(&self) -> (r: &str)
        ensures
            r.spec_bytes() == self@,
    {
        proof {
            use_type_invariant(self);
        }
        self.text.as_str()
    }

    /// A copy with the same identity.
    pub fn duplicate(&self) -> (r: EdgeId)
        ensures
            r@ == self@,
    {
        proof {
            use_type_invariant(self);
        }
        let key = self.key.clone();
        proof {
            assert(key@ =~= self.key@);
        }
        EdgeId { text: self.text.clone(), key }
    }

    /// Three-way comparison in canonical order.
    pub fn compare(&self, other: &EdgeId) -> (r: i8)
        ensures
            r < 0 <==> key_lt(self@, other@),
            r == 0 <==> self@ == other@,
            r > 0 <==> key_lt(other@, self@),
            -1 <= r <= 1,
    {
        compare_keys(&self.key, &other.key)
    }
}

} // verus!
