//! A blockchain identity: a tagged union over four kinds of account and
//! contract, each carrying a 20-byte identifier. On the wire it is one
//! discriminant byte followed by the identifier, and it carries a total
//! order — discriminant first, then identifier bytes — for use as a map key.

use vstd::prelude::*;

use crate::DecodeError;
use crate::ordered::KeyCmp;
use crate::ordered::OrderedKey;
use crate::serialization::Cursor;
use crate::serialization::ReadInt;
use crate::serialization::ReadWrite;
use crate::serialization::WriteInt;
use crate::serialization::copy_bytes;
use crate::serialization::write_all_bytes;

verus! {

/// The number of identifier bytes in every [`Address`].
pub const IDENTIFIER_WIDTH: usize = 20;

/// An identity on the chain. Each variant carries a 20-byte identifier.
#[derive(Debug)]
pub enum Address {
    Account(Vec<u8>),
    SystemContract(Vec<u8>),
    PublicContract(Vec<u8>),
    ZkContract(Vec<u8>),
}

/// The abstract value of an [`Address`].
pub enum AddressView {
    Account(Seq<u8>),
    SystemContract(Seq<u8>),
    PublicContract(Seq<u8>),
    ZkContract(Seq<u8>),
}

/// The wire discriminant of an address kind.
pub open spec fn spec_address_tag(m: AddressView) -> u8 {
    match m {
        AddressView::Account(_) => 0,
        AddressView::SystemContract(_) => 1,
        AddressView::PublicContract(_) => 2,
        AddressView::ZkContract(_) => 3,
    }
}

pub open spec fn spec_address_id(m: AddressView) -> Seq<u8> {
    match m {
        AddressView::Account(id) => id,
        AddressView::SystemContract(id) => id,
        AddressView::PublicContract(id) => id,
        AddressView::ZkContract(id) => id,
    }
}

/// The address a discriminant byte selects.
pub open spec fn spec_address_make(tag: u8, id: Seq<u8>) -> AddressView
    recommends
        tag <= 3,
{
    if tag == 0 {
        AddressView::Account(id)
    } else if tag == 1 {
        AddressView::SystemContract(id)
    } else if tag == 2 {
        AddressView::PublicContract(id)
    } else {
        AddressView::ZkContract(id)
    }
}

/// Strict lexicographic order on byte sequences: a proper prefix comes
/// first, otherwise the first differing byte decides.
pub open spec fn lex_lt(x: Seq<u8>, y: Seq<u8>) -> bool
    decreases x.len(),
{
    if y.len() == 0 {
        false
    } else if x.len() == 0 {
        true
    } else if x[0] < y[0] {
        true
    } else if x[0] > y[0] {
        false
    } else {
        lex_lt(x.drop_first(), y.drop_first())
    }
}

pub proof fn lemma_lex_asym(x: Seq<u8>, y: Seq<u8>)
    ensures
        !(lex_lt(x, y) && lex_lt(y, x)),
    decreases x.len(),
{
    if x.len() != 0 && y.len() != 0 && x[0] == y[0] {
        lemma_lex_asym(x.drop_first(), y.drop_first());
    }
}

pub proof fn lemma_lex_trans(x: Seq<u8>, y: Seq<u8>, z: Seq<u8>)
    requires
        lex_lt(x, y),
        lex_lt(y, z),
    ensures
        lex_lt(x, z),
    decreases x.len(),
{
    if x.len() != 0 {
        if x[0] == y[0] && y[0] == z[0] {
            lemma_lex_trans(x.drop_first(), y.drop_first(), z.drop_first());
        }
    }
}

pub proof fn lemma_lex_connected(x: Seq<u8>, y: Seq<u8>)
    ensures
        !lex_lt(x, y) && !lex_lt(y, x) ==> x == y,
    decreases x.len(),
{
    if !lex_lt(x, y) && !lex_lt(y, x) {
        if x.len() == 0 && y.len() == 0 {
            assert(x =~= y);
        } else if x.len() != 0 && y.len() != 0 {
            assert(x[0] == y[0]);
            lemma_lex_connected(x.drop_first(), y.drop_first());
            assert(x.drop_first() == y.drop_first());
            assert(x.len() == y.len());
            assert forall|i: int| 0 <= i < x.len() implies x[i] == y[i] by {
                if i > 0 {
                    assert(x.drop_first()[i - 1] == y.drop_first()[i - 1]);
                }
            }
            assert(x =~= y);
        }
    }
}

/// If two sequences agree up to position `i` and differ there, the one with
/// the smaller byte comes first.
pub proof fn lemma_lex_from_diff(x: Seq<u8>, y: Seq<u8>, i: int)
    requires
        0 <= i < x.len(),
        i < y.len(),
        forall|j: int| 0 <= j < i ==> x[j] == y[j],
        x[i] < y[i],
    ensures
        lex_lt(x, y),
    decreases i,
{
    if i > 0 {
        assert(x[0] == y[0]);
        lemma_lex_from_diff(x.drop_first(), y.drop_first(), i - 1);
    }
}

/// A proper prefix comes strictly first.
pub proof fn lemma_lex_from_prefix(x: Seq<u8>, y: Seq<u8>)
    requires
        x.len() < y.len(),
        forall|j: int| 0 <= j < x.len() ==> x[j] == y[j],
    ensures
        lex_lt(x, y),
    decreases x.len(),
{
    if x.len() > 0 {
        lemma_lex_from_prefix(x.drop_first(), y.drop_first());
    }
}

/// Three-way lexicographic comparison of two byte buffers.
pub fn lex_compare(a: &Vec<u8>, b: &Vec<u8>) -> (r: KeyCmp)
    ensures
        match r {
            KeyCmp::Less => lex_lt(a@, b@),
            KeyCmp::Equal => a@ == b@,
            KeyCmp::Greater => lex_lt(b@, a@),
        },
{
    let alen = a.len();
    let blen = b.len();
    let n = if alen < blen {
        alen
    } else {
        blen
    };
    let mut i: usize = 0;
    while i < n
        invariant
            i <= n,
            n <= a@.len(),
            n <= b@.len(),
            forall|j: int| 0 <= j < i ==> a@[j] == b@[j],
        decreases n - i,
    {
        if a[i] < b[i] {
            proof {
                lemma_lex_from_diff(a@, b@, i as int);
            }
            return KeyCmp::Less;
        }
        if a[i] > b[i] {
            proof {
                lemma_lex_from_diff(b@, a@, i as int);
            }
            return KeyCmp::Greater;
        }
        i = i + 1;
    }
    if alen < blen {
        proof {
            lemma_lex_from_prefix(a@, b@);
        }
        KeyCmp::Less
    } else if alen > blen {
        proof {
            lemma_lex_from_prefix(b@, a@);
        }
        KeyCmp::Greater
    } else {
        proof {
            assert(a@ =~= b@);
        }
        KeyCmp::Equal
    }
}

/// A well-formed address: its identifier has exactly the required width.
pub open spec fn address_wf(a: Address) -> bool {
    spec_address_id(a.deep_view()).len() == IDENTIFIER_WIDTH
}

/// The total order on addresses: discriminant first, then identifier bytes.
pub open spec fn address_lt(a: AddressView, b: AddressView) -> bool {
    spec_address_tag(a) < spec_address_tag(b) || (spec_address_tag(a) == spec_address_tag(b)
        && lex_lt(spec_address_id(a), spec_address_id(b)))
}

/// The wire image of an address: one discriminant byte, then the identifier.
pub open spec fn spec_enc_address(m: AddressView) -> Seq<u8> {
    seq![spec_address_tag(m)] + spec_address_id(m)
}

/// What decoding an address reads off the front of a stream.
pub open spec fn spec_dec_address(s: Seq<u8>) -> Result<(AddressView, int), DecodeError> {
    if s.len() < 1 + IDENTIFIER_WIDTH {
        Err(DecodeError::Truncated)
    } else if s[0] > 3 {
        Err(DecodeError::UnknownDiscriminant)
    } else {
        Ok((spec_address_make(s[0], s.subrange(1, 1 + IDENTIFIER_WIDTH as int)), 21))
    }
}

impl DeepView for Address {
    type V = AddressView;

    open spec fn deep_view(&self) -> AddressView {
        match self {
            Address::Account(id) => AddressView::Account(id@),
            Address::SystemContract(id) => AddressView::SystemContract(id@),
            Address::PublicContract(id) => AddressView::PublicContract(id@),
            Address::ZkContract(id) => AddressView::ZkContract(id@),
        }
    }
}

impl Address {
    /// The wire discriminant of this address.
    pub fn tag(&self) -> (r: u8)
        ensures
            r == spec_address_tag(self.deep_view()),
    {
        match self {
            Address::Account(_) => 0,
            Address::SystemContract(_) => 1,
            Address::PublicContract(_) => 2,
            Address::ZkContract(_) => 3,
        }
    }

    /// The 20 identifier bytes of this address.
    pub fn ident(&self) -> (r: &Vec<u8>)
        ensures
            r@ == spec_address_id(self.deep_view()),
    {
        match self {
            Address::Account(id) => id,
            Address::SystemContract(id) => id,
            Address::PublicContract(id) => id,
            Address::ZkContract(id) => id,
        }
    }

    /// A copy denoting the same identity.
    pub fn duplicate(&self) -> (r: Address)
        ensures
            r.deep_view() == self.deep_view(),
            r.wf() == self.wf(),
    {
        match self {
            Address::Account(id) => Address::Account(copy_bytes(id)),
            Address::SystemContract(id) => Address::SystemContract(copy_bytes(id)),
            Address::PublicContract(id) => Address::PublicContract(copy_bytes(id)),
            Address::ZkContract(id) => Address::ZkContract(copy_bytes(id)),
        }
    }
}

impl ReadWrite for Address {
    open spec fn wf(&self) -> bool {
        address_wf(*self)
    }

    open spec fn spec_enc(m: AddressView) -> Seq<u8> {
        spec_enc_address(m)
    }

    open spec fn spec_dec(s: Seq<u8>) -> Result<(AddressView, int), DecodeError> {
        spec_dec_address(s)
    }

    proof fn lemma_dec_bounds(s: Seq<u8>) {
    }

    proof fn lemma_round_trip(v: &Address, tail: Seq<u8>) {
        let m = v.deep_view();
        let e = seq![spec_address_tag(m)] + spec_address_id(m);
        assert((e + tail)[0] == spec_address_tag(m));
        assert((e + tail).subrange(1, 1 + IDENTIFIER_WIDTH as int) =~= spec_address_id(m));
    }

    fn read_from(reader: &mut Cursor) -> (r: Result<Address, DecodeError>) {
        if reader.remaining_len() < 1 + IDENTIFIER_WIDTH {
            return Err(DecodeError::Truncated);
        }
        let tag = reader.read_byte();
        let content = reader.read_bytes(IDENTIFIER_WIDTH);
        proof {
            assert(content@ =~= old(reader).remaining().subrange(1, 1 + IDENTIFIER_WIDTH as int));
            assert(old(reader).remaining()[0] == old(reader).stream()[old(reader).offset()]);
        }
        match tag {
            0 => Ok(Address::Account(content)),
            1 => Ok(Address::SystemContract(content)),
            2 => Ok(Address::PublicContract(content)),
            3 => Ok(Address::ZkContract(content)),
            _ => Err(DecodeError::UnknownDiscriminant),
        }
    }

    fn write_to(&self, writer: &mut Vec<u8>) {
        let tag = self.tag();
        writer.write_byte(tag);
        write_all_bytes(writer, self.ident());
        proof {
            assert(old(writer)@.push(spec_address_tag(self.deep_view())) + spec_address_id(
                self.deep_view(),
            ) =~= old(writer)@ + <Address as ReadWrite>::spec_enc(self.deep_view()));
        }
    }
}

impl OrderedKey for Address {
    open spec fn key_lt(a: AddressView, b: AddressView) -> bool {
        address_lt(a, b)
    }

    proof fn lemma_key_order(a: AddressView, b: AddressView, c: AddressView) {
        lemma_lex_asym(spec_address_id(a), spec_address_id(b));
        if Self::key_lt(a, b) && Self::key_lt(b, c) && spec_address_tag(a) == spec_address_tag(b)
            && spec_address_tag(b) == spec_address_tag(c) {
            lemma_lex_trans(spec_address_id(a), spec_address_id(b), spec_address_id(c));
        }
        if a != b && spec_address_tag(a) == spec_address_tag(b) {
            lemma_lex_connected(spec_address_id(a), spec_address_id(b));
        }
    }

    fn key_compare(&self, other: &Self) -> (r: KeyCmp) {
        let st = self.tag();
        let ot = other.tag();
        if st < ot {
            KeyCmp::Less
        } else if st > ot {
            KeyCmp::Greater
        } else {
            let r = lex_compare(self.ident(), other.ident());
            proof {
                if r is Equal {
                    assert(self.deep_view() == other.deep_view());
                }
            }
            r
        }
    }
}

impl PartialEq for Address {
    fn eq(&self, other: &Address) -> (r: bool) {
        let c = self.key_compare(other);
        proof {
            match c {
                KeyCmp::Equal => {},
                KeyCmp::Less => {
                    if self.deep_view() == other.deep_view() {
                        Address::lemma_key_order(
                            self.deep_view(),
                            self.deep_view(),
                            self.deep_view(),
                        );
                        assert(false);
                    }
                },
                KeyCmp::Greater => {
                    if self.deep_view() == other.deep_view() {
                        Address::lemma_key_order(
                            self.deep_view(),
                            self.deep_view(),
                            self.deep_view(),
                        );
                        assert(false);
                    }
                },
            }
        }
        match c {
            KeyCmp::Equal => true,
            KeyCmp::Less => false,
            KeyCmp::Greater => false,
        }
    }
}

impl Eq for Address {

}

impl vstd::std_specs::cmp::PartialEqSpecImpl for Address {
    open spec fn obeys_eq_spec() -> bool {
        true
    }

    open spec fn eq_spec(&self, other: &Address) -> bool {
        self.deep_view() == other.deep_view()
    }
}

} // verus!
