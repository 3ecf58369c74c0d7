use vstd::prelude::*;

verus! {

/// Errors that a store operation can report.
#[derive(Debug, Clone, Copy, PartialEq, Eq, Structural)]
pub enum Error {
    /// The caller does not own the listing, or its price cannot compete for a
    /// place in its pair's index.
    GenericError,
    /// A field is longer than its limit.
    DataTooLarge,
    /// The owner already holds as many listings as the policy allows.
    TooManyListings,
}

/// A sequence of 32-byte identifiers.
#[derive(Debug, Default, PartialEq, Eq)]
pub struct HashVector {
    pub hashvector: Vec<[u8; 32]>,
}

impl View for HashVector {
    type V = Seq<[u8; 32]>;

    open spec fn view(&self) -> Seq<[u8; 32]> {
        self.hashvector@
    }
}

/// One offer on the board.
#[derive(Debug, PartialEq, Eq)]
pub struct Listing {
    pub listing_id: [u8; 32],
    pub seller: [u8; 32],
    pub offer_coin: Vec<u8>,
    pub asking_coin: Vec<u8>,
    pub pair: (Vec<u8>, Vec<u8>),
    pub price: u128,
    pub method: Vec<u8>,
    pub inventory: u128,
    pub country: Vec<u8>,
    pub city: Vec<u8>,
    pub hide: bool,
}

/// The mathematical value of a [`Listing`]: every byte field as a sequence.
pub struct ListingView {
    pub listing_id: [u8; 32],
    pub seller: [u8; 32],
    pub offer_coin: Seq<u8>,
    pub asking_coin: Seq<u8>,
    pub pair: (Seq<u8>, Seq<u8>),
    pub price: u128,
    pub method: Seq<u8>,
    pub inventory: u128,
    pub country: Seq<u8>,
    pub city: Seq<u8>,
    pub hide: bool,
}

impl View for Listing {
    type V = ListingView;

    open spec fn view(&self) -> ListingView {
        ListingView {
            listing_id: self.listing_id,
            seller: self.seller,
            offer_coin: self.offer_coin@,
            asking_coin: self.asking_coin@,
            pair: (self.pair.0@, self.pair.1@),
            price: self.price,
            method: self.method@,
            inventory: self.inventory,
            country: self.country@,
            city: self.city@,
            hide: self.hide,
        }
    }
}

pub(crate) fn copy_bytes(v: &Vec<u8>) -> (r: Vec<u8>)
    ensures
        r@ == v@,
{
    let mut r: Vec<u8> = Vec::with_capacity(v.len());
    let mut i: usize = 0;
    while i < v.len()
        invariant
            i <= v.len(),
            r@ == v@.subrange(0, i as int),
        decreases v.len() - i,
    {
        r.push(v[i]);
        i = i + 1;
    }
    assert(r@ =~= v@);
    r
}

impl Clone for Listing {
    fn clone(&self) -> (r: Self)
        ensures
            r@ == self@,
    {
        Listing {
            listing_id: self.listing_id,
            seller: self.seller,
            offer_coin: copy_bytes(&self.offer_coin),
            asking_coin: copy_bytes(&self.asking_coin),
            pair: (copy_bytes(&self.pair.0), copy_bytes(&self.pair.1)),
            price: self.price,
            method: copy_bytes(&self.method),
            inventory: self.inventory,
            country: copy_bytes(&self.country),
            city: copy_bytes(&self.city),
            hide: self.hide,
        }
    }
}

impl Default for Listing {
    /// A visible record with zero identifiers, zero amounts and empty labels.
    fn default() -> (r: Listing)
        ensures
            forall|j: int| 0 <= j < 32 ==> r.listing_id[j] == 0 && r.seller[j] == 0,
            r@.offer_coin.len() == 0,
            r@.asking_coin.len() == 0,
            r@.pair.0.len() == 0,
            r@.pair.1.len() == 0,
            r.price == 0,
            r@.method.len() == 0,
            r.inventory == 0,
            r@.country.len() == 0,
            r@.city.len() == 0,
            !r.hide,
    {
        Listing {
            listing_id: [0u8; 32],
            seller: [0u8; 32],
            offer_coin: Vec::new(),
            asking_coin: Vec::new(),
            pair: (Vec::new(), Vec::new()),
            price: 0,
            method: Vec::new(),
            inventory: 0,
            country: Vec::new(),
            city: Vec::new(),
            hide: false,
        }
    }
}

/// What the owner of a board sees of their own listings.
#[derive(Debug, Default, PartialEq, Eq)]
pub struct ViewListings {
    pub listings: Vec<Listing>,
}

/// Compares two 32-byte identifiers.
pub fn same_id(a: &[u8; 32], b: &[u8; 32]) -> (r: bool)
    ensures
        r == (*a == *b),
{
    let mut i: usize = 0;
    while i < 32
        invariant
            0 <= i <= 32,
            forall|j: int| 0 <= j < i ==> a[j] == b[j],
        decreases 32 - i,
    {
        if a[i] != b[i] {
            return false;
        }
        i = i + 1;
    }
    proof {
        broadcast use vstd::array::group_array_axioms;
        assert(*a =~= *b);
    }
    true
}

} // verus!

verus! {

/// Compares two byte strings.
pub fn same_bytes(a: &Vec<u8>, b: &Vec<u8>) -> (r: bool)
    ensures
        r == (a@ == b@),
{
    if a.len() != b.len() {
        return false;
    }
    let mut i: usize = 0;
    while i < a.len()
        invariant
            a.len() == b.len(),
            0 <= i <= a.len(),
            forall|j: int| 0 <= j < i ==> a@[j] == b@[j],
        decreases a.len() - i,
    {
        if a[i] != b[i] {
            return false;
        }
        i = i + 1;
    }
    assert(a@ =~= b@);
    true
}

} // verus!
