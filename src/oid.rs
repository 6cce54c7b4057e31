use vstd::prelude::*;

verus! {

/// Number of bytes in a SHA-1 object identifier.
pub const OID_LEN: usize = 20;

/// Number of hexadecimal digits that spell out an object identifier.
pub const OID_HEX_LEN: usize = 40;

/// The value of a single ASCII hexadecimal digit, if `b` is one.
pub open spec fn hex_value(b: u8) -> Option<u8> {
    if 48 <= b <= 57 {
        Some((b - 48) as u8)
    } else if 97 <= b <= 102 {
        Some((b - 87) as u8)
    } else if 65 <= b <= 70 {
        Some((b - 55) as u8)
    } else {
        None
    }
}

pub open spec fn is_hex_digit(b: u8) -> bool {
    hex_value(b) is Some
}

/// `s` spells out a full object identifier.
pub open spec fn is_full_hex(s: Seq<u8>) -> bool {
    s.len() == OID_HEX_LEN && forall|i: int| 0 <= i < s.len() ==> is_hex_digit(#[trigger] s[i])
}

/// The bytes that a sequence of hex digit pairs spells out.
pub open spec fn hex_decoded(s: Seq<u8>) -> Seq<u8> {
    Seq::new(
        (s.len() / 2) as nat,
        |i: int| (hex_value(s[2 * i]).unwrap() * 16 + hex_value(s[2 * i + 1]).unwrap()) as u8,
    )
}

/// A binary object identifier, always `OID_LEN` bytes long.
#[derive(Clone, Debug, PartialEq, Eq)]
pub struct ObjectId {
    pub bytes: Vec<u8>,
}

impl View for ObjectId {
    type V = Seq<u8>;

    open spec fn view(&self) -> Seq<u8> {
        self.bytes@
    }
}

impl ObjectId {
    pub open spec fn wf(&self) -> bool {
        self@.len() == OID_LEN
    }

    /// Build an identifier from exactly `OID_LEN` raw bytes.
    pub fn from_bytes(b: &[u8]) -> (r: Option<ObjectId>)
        ensures
            b@.len() == OID_LEN ==> r is Some && r->0@ == b@,
            b@.len() != OID_LEN ==> r is None,
    {
        if b.len() == OID_LEN {
            let mut v: Vec<u8> = Vec::new();
            let mut i: usize = 0;
            while i < b.len()
                invariant
                    0 <= i <= b@.len(),
                    v@ == b@.subrange(0, i as int),
                decreases b@.len() - i,
            {
                v.push(b[i]);
                i += 1;
            }
            assert(v@ =~= b@);
            Some(ObjectId { bytes: v })
        } else {
            None
        }
    }

    /// Parse the `OID_HEX_LEN` hexadecimal digits of an identifier, in either case.
    pub fn from_hex(s: &[u8]) -> (r: Option<ObjectId>)
        ensures
            is_full_hex(s@) ==> r is Some && r->0@ == hex_decoded(s@) && r->0.wf(),
            !is_full_hex(s@) ==> r is None,
    {
        if s.len() != OID_HEX_LEN {
            return None;
        }
        let mut v: Vec<u8> = Vec::new();
        let mut i: usize = 0;
        while i < OID_LEN
            invariant
                s@.len() == OID_HEX_LEN,
                0 <= i <= OID_LEN,
                v@.len() == i,
                forall|k: int| 0 <= k < 2 * i ==> is_hex_digit(#[trigger] s@[k]),
                forall|k: int| 0 <= k < i ==> v@[k] == #[trigger] hex_decoded(s@)[k],
            decreases OID_LEN - i,
        {
            let hi = hex_digit(s[2 * i]);
            let lo = hex_digit(s[2 * i + 1]);
            match (hi, lo) {
                (Some(h), Some(l)) => {
                    v.push(h * 16 + l);
                    proof {
                        assert forall|k: int| 0 <= k < 2 * (i + 1) implies is_hex_digit(
                            #[trigger] s@[k],
                        ) by {
                            if k == 2 * i || k == 2 * i + 1 {
                            }
                        }
                    }
                },
                _ => {
                    proof {
                        if hi is None {
                            assert(!is_hex_digit(s@[2 * i as int]));
                        } else {
                            assert(!is_hex_digit(s@[2 * i + 1]));
                        }
                    }
                    return None;
                },
            }
            i += 1;
        }
        assert(v@ =~= hex_decoded(s@));
        Some(ObjectId { bytes: v })
    }

    /// The raw bytes of this identifier.
    pub fn as_bytes(&self) -> (r: &[u8])
        ensures
            r@ == self@,
    {
        self.bytes.as_slice()
    }

    /// Two identifiers are the same object.
    pub fn same_as(&self, other: &ObjectId) -> (r: bool)
        ensures
            r == (self@ == other@),
    {
        bytes_equal(self.bytes.as_slice(), other.bytes.as_slice())
    }

    pub fn duplicate(&self) -> (r: ObjectId)
        ensures
            r@ == self@,
    {
        ObjectId { bytes: copy_bytes(self.bytes.as_slice()) }
    }
}

fn hex_digit(b: u8) -> (r: Option<u8>)
    ensures
        r == hex_value(b),
        r is Some ==> r->0 < 16,
{
    if 48 <= b && b <= 57 {
        Some(b - 48)
    } else if 97 <= b && b <= 102 {
        Some(b - 87)
    } else if 65 <= b && b <= 70 {
        Some(b - 55)
    } else {
        None
    }
}

/// Byte-wise equality of two byte strings.
pub fn bytes_equal(a: &[u8], b: &[u8]) -> (r: bool)
    ensures
        r == (a@ == b@),
{
    if a.len() != b.len() {
        return false;
    }
    let mut i: usize = 0;
    while i < a.len()
        invariant
            a@.len() == b@.len(),
            0 <= i <= a@.len(),
            a@.subrange(0, i as int) == b@.subrange(0, i as int),
        decreases a@.len() - i,
    {
        if a[i] != b[i] {
            assert(a@[i as int] != b@[i as int]);
            return false;
        }
        assert(a@.subrange(0, i + 1) =~= a@.subrange(0, i as int).push(a@[i as int]));
        assert(b@.subrange(0, i + 1) =~= b@.subrange(0, i as int).push(b@[i as int]));
        i += 1;
    }
    assert(a@ =~= a@.subrange(0, i as int));
    assert(b@ =~= b@.subrange(0, i as int));
    true
}

/// An owned copy of a byte string.
pub fn copy_bytes(a: &[u8]) -> (r: Vec<u8>)
    ensures
        r@ == a@,
{
    let mut v: Vec<u8> = Vec::new();
    let mut i: usize = 0;
    while i < a.len()
        invariant
            0 <= i <= a@.len(),
            v@ == a@.subrange(0, i as int),
        decreases a@.len() - i,
    {
        v.push(a[i]);
        i += 1;
    }
    assert(v@ =~= a@);
    v
}

/// The lower-case hexadecimal digit of `n`.
pub open spec fn hex_char(n: int) -> u8 {
    if n < 10 {
        (n + 48) as u8
    } else {
        (n + 87) as u8
    }
}

/// `b` spelt out in lower-case hexadecimal, two digits per byte.
pub open spec fn hex_encoded(b: Seq<u8>) -> Seq<u8> {
    Seq::new(
        2 * b.len(),
        |i: int| if i % 2 == 0 {
            hex_char(b[i / 2] as int / 16)
        } else {
            hex_char(b[i / 2] as int % 16)
        },
    )
}

fn hex_char_of(n: u8) -> (r: u8)
    requires
        n < 16,
    ensures
        r == hex_char(n as int),
{
    if n < 10 {
        n + 48
    } else {
        n + 87
    }
}

impl ObjectId {
    /// Append the lower-case hexadecimal spelling of this identifier to `out`.
    pub fn write_hex(&self, out: &mut Vec<u8>)
        ensures
            final(out)@ == old(out)@ + hex_encoded(self@),
    {
        let ghost start = out@;
        let mut i: usize = 0;
        let n = self.bytes.len();
        while i < n
            invariant
                n == self@.len(),
                0 <= i <= n,
                out@.len() == start.len() + 2 * i,
                out@.subrange(0, start.len() as int) == start,
                forall|k: int| 0 <= k < 2 * i ==> #[trigger] out@[start.len() + k] == hex_encoded(self@)[k],
            decreases n - i,
        {
            let b = self.bytes[i];
            out.push(hex_char_of(b / 16));
            out.push(hex_char_of(b % 16));
            proof {
                assert forall|k: int| 0 <= k < 2 * (i + 1) implies #[trigger] out@[start.len() + k] == hex_encoded(self@)[k] by {
                    if k == 2 * i {
                        assert(k / 2 == i as int);
                        assert(k % 2 == 0);
                    } else if k == 2 * i + 1 {
                        assert(k / 2 == i as int);
                        assert(k % 2 == 1);
                    }
                }
                assert(out@.subrange(0, start.len() as int) =~= start);
            }
            i += 1;
        }
        assert forall|j: int| 0 <= j < out@.len() implies out@[j] == (start + hex_encoded(self@))[j] by {
            if j < start.len() {
                assert(out@.subrange(0, start.len() as int)[j] == start[j]);
            } else {
                assert(out@[start.len() + (j - start.len())] == hex_encoded(self@)[j - start.len()]);
            }
        }
        assert(out@ =~= start + hex_encoded(self@));
    }
}

/// `s` spells out a full object identifier in lower-case hexadecimal.
pub open spec fn is_lower_hex(s: Seq<u8>) -> bool {
    s.len() == OID_HEX_LEN && forall|i: int|
        0 <= i < s.len() ==> (48 <= #[trigger] s[i] <= 57 || 97 <= s[i] <= 102)
}

proof fn lemma_hex_char_of_value(c: u8)
    requires
        48 <= c <= 57 || 97 <= c <= 102,
    ensures
        hex_char(hex_value(c).unwrap() as int) == c,
        hex_value(c).unwrap() < 16,
{
}

/// Lower-case hexadecimal spells out what it decodes to.
pub proof fn lemma_lower_hex_round_trip(s: Seq<u8>)
    requires
        is_lower_hex(s),
    ensures
        hex_encoded(hex_decoded(s)) == s,
{
    let d = hex_decoded(s);
    assert forall|k: int| 0 <= k < s.len() implies #[trigger] hex_encoded(d)[k] == s[k] by {
        let j = k / 2;
        assert(0 <= 2 * j && 2 * j + 1 < s.len());
        let a = s[2 * j];
        let b = s[2 * j + 1];
        lemma_hex_char_of_value(a);
        lemma_hex_char_of_value(b);
        let hi = hex_value(a).unwrap() as int;
        let lo = hex_value(b).unwrap() as int;
        assert(d[j] as int == hi * 16 + lo) by {
            assert(0 <= hi * 16 + lo < 256) by (nonlinear_arith)
                requires
                    0 <= hi < 16,
                    0 <= lo < 16,
            ;
        }
        assert((hi * 16 + lo) / 16 == hi && (hi * 16 + lo) % 16 == lo) by (nonlinear_arith)
            requires
                0 <= hi < 16,
                0 <= lo < 16,
        ;
        if k % 2 == 0 {
            assert(k == 2 * j);
        } else {
            assert(k == 2 * j + 1);
        }
    }
    assert(hex_encoded(d) =~= s);
}

impl ObjectId {
    /// Parse an identifier spelt out in lower-case hexadecimal, as it is
    /// written to files.
    pub fn from_lower_hex(s: &[u8]) -> (r: Option<ObjectId>)
        ensures
            is_lower_hex(s@) ==> r is Some && r->0@ == hex_decoded(s@) && hex_encoded(r->0@) == s@ && r->0.wf(),
            !is_lower_hex(s@) ==> r is None,
    {
        if s.len() != OID_HEX_LEN {
            return None;
        }
        let mut i: usize = 0;
        while i < s.len()
            invariant
                0 <= i <= s@.len(),
                forall|k: int| 0 <= k < i ==> (48 <= #[trigger] s@[k] <= 57 || 97 <= s@[k] <= 102),
            decreases s@.len() - i,
        {
            if !((48 <= s[i] && s[i] <= 57) || (97 <= s[i] && s[i] <= 102)) {
                return None;
            }
            i += 1;
        }
        proof {
            lemma_lower_hex_round_trip(s@);
            assert forall|k: int| 0 <= k < s@.len() implies is_hex_digit(#[trigger] s@[k]) by {
                lemma_hex_char_of_value(s@[k]);
            }
        }
        ObjectId::from_hex(s)
    }
}

/// Hexadecimal written out is lower-case and decodes to the bytes it came from.
pub proof fn lemma_hex_encoded_decodes(x: Seq<u8>)
    ensures
        forall|i: int|
            0 <= i < hex_encoded(x).len() ==> (48 <= #[trigger] hex_encoded(x)[i] <= 57 || 97
                <= hex_encoded(x)[i] <= 102),
        hex_decoded(hex_encoded(x)) == x,
{
    let e = hex_encoded(x);
    assert forall|i: int| 0 <= i < e.len() implies (48 <= #[trigger] e[i] <= 57 || 97 <= e[i] <= 102) by {
        let v = x[i / 2] as int;
        assert(0 <= v / 16 < 16 && 0 <= v % 16 < 16) by (nonlinear_arith)
            requires
                0 <= v < 256,
        ;
    }
    let d = hex_decoded(e);
    assert forall|j: int| 0 <= j < x.len() implies #[trigger] d[j] == x[j] by {
        let v = x[j] as int;
        assert((2 * j) / 2 == j && (2 * j + 1) / 2 == j && (2 * j) % 2 == 0 && (2 * j + 1) % 2 == 1);
        assert(0 <= v / 16 < 16 && 0 <= v % 16 < 16 && (v / 16) * 16 + v % 16 == v) by (nonlinear_arith)
            requires
                0 <= v < 256,
        ;
        lemma_hex_char_of_value(hex_char(v / 16));
        lemma_hex_char_of_value(hex_char(v % 16));
    }
    assert(d =~= x);
}

} // verus!
