//! Object identifiers: fixed-width content hashes.
//!
//! An identifier is twenty bytes. [`MaybeZeroOid`] admits the all-zero hash,
//! which stands for "no object"; [`NonZeroOid`] refuses it at construction.

use vstd::prelude::*;

verus! {

/// The sixteen lower-case hexadecimal digits, in order.
pub open spec fn hex_digits() -> Seq<char> {
    seq!['0', '1', '2', '3', '4', '5', '6', '7', '8', '9', 'a', 'b', 'c', 'd', 'e', 'f']
}

/// The hexadecimal rendering of a byte string: two digits per byte, high nibble first.
pub open spec fn hex_of(bytes: Seq<u8>) -> Seq<char> {
    Seq::new(
        2 * bytes.len(),
        |i: int|
            if i % 2 == 0 {
                hex_digits()[bytes[i / 2] as int / 16]
            } else {
                hex_digits()[bytes[i / 2] as int % 16]
            },
    )
}

/// Whether every byte is zero.
pub open spec fn all_zero(bytes: Seq<u8>) -> bool {
    forall|i: int| 0 <= i < bytes.len() ==> bytes[i] == 0
}

/// Strict lexicographic order on byte strings: at the first position where they
/// differ, `a` holds the smaller byte; or `a` is a proper prefix of `b`.
pub open spec fn bytes_lt(a: Seq<u8>, b: Seq<u8>) -> bool
    decreases a.len(),
{
    if b.len() == 0 {
        false
    } else if a.len() == 0 {
        true
    } else if a[0] != b[0] {
        a[0] < b[0]
    } else {
        bytes_lt(a.drop_first(), b.drop_first())
    }
}

/// `bytes_lt` never holds of a string and itself.
pub proof fn lemma_bytes_lt_irreflexive(a: Seq<u8>)
    ensures
        !bytes_lt(a, a),
    decreases a.len(),
{
    if a.len() > 0 {
        lemma_bytes_lt_irreflexive(a.drop_first());
    }
}

/// Of two different byte strings exactly one precedes the other.
pub proof fn lemma_bytes_lt_total(a: Seq<u8>, b: Seq<u8>)
    ensures
        a != b ==> (bytes_lt(a, b) <==> !bytes_lt(b, a)),
        a == b ==> !bytes_lt(a, b),
    decreases a.len(),
{
    if a == b {
        lemma_bytes_lt_irreflexive(a);
    } else if a.len() == 0 || b.len() == 0 {
        if a.len() == 0 && b.len() == 0 {
            assert(a =~= b);
        }
    } else if a[0] == b[0] {
        if a.drop_first() == b.drop_first() {
            assert(a =~= seq![a[0]] + a.drop_first());
            assert(b =~= seq![b[0]] + b.drop_first());
        }
        lemma_bytes_lt_total(a.drop_first(), b.drop_first());
    }
}

/// `bytes_lt` is transitive.
pub proof fn lemma_bytes_lt_transitive(a: Seq<u8>, b: Seq<u8>, c: Seq<u8>)
    requires
        bytes_lt(a, b),
        bytes_lt(b, c),
    ensures
        bytes_lt(a, c),
    decreases a.len(),
{
    if a.len() > 0 && a[0] == b[0] && b[0] == c[0] {
        lemma_bytes_lt_transitive(a.drop_first(), b.drop_first(), c.drop_first());
    }
}

/// Compares two byte strings for equality.
pub fn bytes_eq(a: &[u8], b: &[u8]) -> (r: bool)
    ensures
        r == (a@ == b@),
{
    if a.len() != b.len() {
        return false;
    }
    let mut i: usize = 0;
    while i < a.len()
        invariant
            a@.len() == b@.len(),
            i <= a@.len(),
            forall|j: int| 0 <= j < i ==> a@[j] == b@[j],
        decreases a@.len() - i,
    {
        if a[i] != b[i] {
            return false;
        }
        i += 1;
    }
    assert(a@ =~= b@);
    true
}

/// Decides the strict lexicographic order of two byte strings.
pub fn bytes_less(a: &[u8], b: &[u8]) -> (r: bool)
    ensures
        r == bytes_lt(a@, b@),
{
    let mut i: usize = 0;
    assert(a@.skip(0) =~= a@ && b@.skip(0) =~= b@);
    while i < a.len() && i < b.len()
        invariant
            i <= a@.len(),
            i <= b@.len(),
            bytes_lt(a@, b@) == bytes_lt(a@.skip(i as int), b@.skip(i as int)),
        decreases a@.len() - i,
    {
        let ghost sa = a@.skip(i as int);
        let ghost sb = b@.skip(i as int);
        assert(sa[0] == a@[i as int] && sb[0] == b@[i as int]);
        if a[i] != b[i] {
            return a[i] < b[i];
        }
        assert(sa.drop_first() =~= a@.skip(i + 1));
        assert(sb.drop_first() =~= b@.skip(i + 1));
        i += 1;
    }
    assert(a@.skip(i as int).len() == a@.len() - i);
    assert(b@.skip(i as int).len() == b@.len() - i);
    i < b.len()
}

/// One hexadecimal digit as a string.
fn hex_digit_str(n: u8) -> (s: &'static str)
    requires
        n < 16,
    ensures
        s@ == seq![hex_digits()[n as int]],
{
    proof {
        reveal_strlit("0");
        reveal_strlit("1");
        reveal_strlit("2");
        reveal_strlit("3");
        reveal_strlit("4");
        reveal_strlit("5");
        reveal_strlit("6");
        reveal_strlit("7");
        reveal_strlit("8");
        reveal_strlit("9");
        reveal_strlit("a");
        reveal_strlit("b");
        reveal_strlit("c");
        reveal_strlit("d");
        reveal_strlit("e");
        reveal_strlit("f");
    }
    let s = match n {
        0 => "0",
        1 => "1",
        2 => "2",
        3 => "3",
        4 => "4",
        5 => "5",
        6 => "6",
        7 => "7",
        8 => "8",
        9 => "9",
        10 => "a",
        11 => "b",
        12 => "c",
        13 => "d",
        14 => "e",
        _ => "f",
    };
    assert(s@ =~= seq![hex_digits()[n as int]]);
    s
}

/// Renders a byte string in lower-case hexadecimal.
pub fn bytes_to_hex(bytes: &[u8]) -> (s: String)
    ensures
        s@ == hex_of(bytes@),
{
    let mut out = String::new();
    let mut i: usize = 0;
    while i < bytes.len()
        invariant
            i <= bytes@.len(),
            out@ == hex_of(bytes@.take(i as int)),
        decreases bytes@.len() - i,
    {
        let b: u8 = bytes[i];
        let ghost before = out@;
        out.append(hex_digit_str(b / 16));
        out.append(hex_digit_str(b % 16));
        assert(out@ =~= hex_of(bytes@.take(i + 1))) by {
            let t = bytes@.take(i + 1);
            assert(bytes@.take(i as int) =~= t.take(i as int));
            assert forall|k: int| 0 <= k < 2 * (i + 1) implies out@[k] == hex_of(t)[k] by {
                if k < 2 * i {
                    assert(out@[k] == before[k]);
                    assert(bytes@.take(i as int)[k / 2] == t[k / 2]);
                } else {
                    assert(k / 2 == i);
                    assert(t[i as int] == b);
                }
            }
        }
        i += 1;
    }
    assert(bytes@.take(i as int) =~= bytes@);
    out
}

/// An object identifier that is never the all-zero hash.
#[derive(Clone, Copy, Debug, Eq, PartialOrd, Ord, Hash)]
pub struct NonZeroOid {
    bytes: [u8; 20],
}

impl View for NonZeroOid {
    type V = Seq<u8>;

    closed spec fn view(&self) -> Seq<u8> {
        self.bytes@
    }
}

impl PartialEq for NonZeroOid {
    fn eq(&self, other: &Self) -> (r: bool) {
        bytes_eq(self.bytes.as_slice(), other.bytes.as_slice())
    }
}

impl vstd::std_specs::cmp::PartialEqSpecImpl for NonZeroOid {
    open spec fn obeys_eq_spec() -> bool {
        true
    }

    open spec fn eq_spec(&self, other: &Self) -> bool {
        self@ == other@
    }
}

impl NonZeroOid {
    #[verifier::type_invariant]
    spec fn not_zero(self) -> bool {
        !all_zero(self.bytes@)
    }

    /// Two identifiers with the same bytes are the same identifier, and each
    /// has twenty bytes, not all of them zero.
    pub broadcast proof fn lemma_view(self, other: NonZeroOid)
        ensures
            #![trigger self@, other@]
            self@.len() == 20,
            (self@ == other@) == (self == other),
    {
        if self@ == other@ {
            assert(self.bytes =~= other.bytes);
        }
    }

    /// Makes an identifier from its twenty bytes; `None` for the zero hash.
    pub fn from_bytes(bytes: [u8; 20]) -> (r: Option<NonZeroOid>)
        ensures
            all_zero(bytes@) <==> r is None,
            r matches Some(oid) ==> oid@ == bytes@,
    {
        let mut i: usize = 0;
        while i < 20
            invariant
                i <= 20,
                forall|j: int| 0 <= j < i ==> bytes@[j] == 0,
            decreases 20 - i,
        {
            if bytes[i] != 0 {
                return Some(NonZeroOid { bytes });
            }
            i += 1;
        }
        None
    }

    /// The twenty bytes of the identifier.
    pub fn as_bytes(&self) -> (r: [u8; 20])
        ensures
            r@ == self@,
            !all_zero(r@),
    {
        proof {
            use_type_invariant(self);
        }
        self.bytes
    }

    /// The identifier as forty lower-case hexadecimal digits.
    pub fn to_hex(&self) -> (s: String)
        ensures
            s@ == hex_of(self@),
    {
        bytes_to_hex(self.bytes.as_slice())
    }

    /// Whether this identifier sorts before `other`, byte by byte. This is
    /// also the order of the two hexadecimal renderings.
    pub fn is_before(&self, other: &NonZeroOid) -> (r: bool)
        ensures
            r == bytes_lt(self@, other@),
    {
        bytes_less(self.bytes.as_slice(), other.bytes.as_slice())
    }
}

/// An object identifier that may be the all-zero hash, which stands for an
/// absent object.
#[derive(Clone, Copy, Debug, PartialEq, Eq, PartialOrd, Ord, Hash)]
pub enum MaybeZeroOid {
    /// The all-zero hash.
    Zero,
    /// Any other hash.
    NonZero(NonZeroOid),
}

impl View for MaybeZeroOid {
    type V = Seq<u8>;

    open spec fn view(&self) -> Seq<u8> {
        match self {
            MaybeZeroOid::Zero => Seq::new(20, |i: int| 0u8),
            MaybeZeroOid::NonZero(oid) => oid@,
        }
    }
}

impl MaybeZeroOid {
    /// Makes an identifier from its twenty bytes.
    pub fn from_bytes(bytes: [u8; 20]) -> (r: MaybeZeroOid)
        ensures
            r@ == bytes@,
            r is Zero <==> all_zero(bytes@),
    {
        match NonZeroOid::from_bytes(bytes) {
            Some(oid) => MaybeZeroOid::NonZero(oid),
            None => {
                assert(bytes@ =~= Seq::new(20, |i: int| 0u8));
                MaybeZeroOid::Zero
            },
        }
    }

    /// Widens an identifier that is known not to be zero.
    pub fn from_non_zero(oid: NonZeroOid) -> (r: MaybeZeroOid)
        ensures
            r == MaybeZeroOid::NonZero(oid),
    {
        MaybeZeroOid::NonZero(oid)
    }

    /// The identifier, unless it is the zero hash.
    pub fn non_zero(&self) -> (r: Option<NonZeroOid>)
        ensures
            r == match *self {
                MaybeZeroOid::Zero => None::<NonZeroOid>,
                MaybeZeroOid::NonZero(oid) => Some(oid),
            },
    {
        match self {
            MaybeZeroOid::Zero => None,
            MaybeZeroOid::NonZero(oid) => Some(*oid),
        }
    }

    /// The twenty bytes of the identifier.
    pub fn as_bytes(&self) -> (r: [u8; 20])
        ensures
            r@ == self@,
    {
        match self {
            MaybeZeroOid::Zero => {
                let r = [0u8; 20];
                assert(r@ =~= self@);
                r
            },
            MaybeZeroOid::NonZero(oid) => oid.as_bytes(),
        }
    }

    /// The identifier as forty lower-case hexadecimal digits.
    pub fn to_hex(&self) -> (s: String)
        ensures
            s@ == hex_of(self@),
    {
        let bytes = self.as_bytes();
        bytes_to_hex(bytes.as_slice())
    }
}

} // verus!
