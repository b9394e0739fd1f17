use vstd::prelude::*;

use crate::device::Device;

verus! {

/// Where an enumeration of the bus stands.
#[derive(Debug, Clone, Copy, PartialEq, Eq, Structural)]
pub enum SearchState {
    /// No device has been found yet.
    Initialized,
    /// A device was found and others may remain.
    DeviceFound,
    /// Every device has been found; further searches find nothing.
    End,
}

/// Bit `i` of a byte sequence, least significant bit of each byte first.
pub open spec fn bit_at(s: Seq<u8>, i: int) -> bool {
    s[i / 8] & (1u8 << (i % 8) as u8) != 0
}

/// The 64 bits of an 8-byte sequence, in the order the bus sends them.
pub open spec fn bits_of(s: Seq<u8>) -> Seq<bool> {
    Seq::new(64, |i: int| bit_at(s, i))
}

/// The highest position below `n` at which `d` is set.
pub open spec fn highest_set(d: Seq<bool>, n: int) -> Option<int>
    decreases n,
{
    if n <= 0 {
        None
    } else if d[n - 1] {
        Some(n - 1)
    } else {
        highest_set(d, n - 1)
    }
}

/// The model of a search cursor: the 64 address bits chosen so far, the
/// positions with a branch still to explore, the phase, and how many leading
/// address bits were fixed in advance (the family code of a seeded search).
pub struct SearchView {
    pub address: Seq<bool>,
    pub discrepancies: Seq<bool>,
    pub state: SearchState,
    pub fixed: int,
}

impl SearchView {
    /// Both bit sequences have 64 positions.
    pub open spec fn wf(self) -> bool {
        self.address.len() == 64 && self.discrepancies.len() == 64
    }

    /// The branch to resume next: the highest pending position.
    pub open spec fn last_discrepancy(self) -> Option<int> {
        highest_set(self.discrepancies, 64)
    }

    /// The cursor with address bit `i` set to `b`.
    pub open spec fn with_address_bit(self, i: int, b: bool) -> SearchView {
        SearchView { address: self.address.update(i, b), ..self }
    }

    /// The cursor with the pending mark of position `i` set to `b`.
    pub open spec fn with_discrepancy(self, i: int, b: bool) -> SearchView {
        SearchView { discrepancies: self.discrepancies.update(i, b), ..self }
    }

    /// No branch is pending.
    pub open spec fn exhausted(self) -> bool {
        forall|i: int| 0 <= i < 64 ==> !self.discrepancies[i]
    }
}

/// One position of a search pass. Positions below `v.fixed` are sent as
/// seeded, like the path of an earlier pass. `last` is the branch being resumed and
/// `(bit0, bit1)` the bit and its complement as the remaining devices
/// answered them (wired-AND). `None` means that no device answered and the
/// pass stops; otherwise the new cursor, whose address bit at `i` is the bit
/// sent back on the bus.
pub open spec fn search_bit(v: SearchView, last: Option<int>, i: int, bit0: bool, bit1: bool) -> Option<
    SearchView,
> {
    if i < v.fixed || (last is Some && i < last->0) {
        // replay of the seeded bits, or of the path of the previous pass
        if bit0 && bit1 {
            None
        } else {
            Some(v)
        }
    } else if last == Some(i) {
        // the branch being resumed takes its second path
        Some(
            SearchView {
                address: v.address.update(i, true),
                discrepancies: v.discrepancies.update(i, false),
                ..v
            },
        )
    } else if bit0 && bit1 {
        None
    } else if !bit0 && !bit1 {
        // a new fork: take the 0 path first, remember the 1 path
        Some(
            SearchView {
                address: v.address.update(i, false),
                discrepancies: v.discrepancies.update(i, true),
                ..v
            },
        )
    } else {
        Some(SearchView { address: v.address.update(i, bit0), ..v })
    }
}

/// The cursor after the positions `0 .. pairs.len()` of a pass, and whether
/// the pass stopped on the last of them.
pub open spec fn search_walk(v: SearchView, last: Option<int>, pairs: Seq<(bool, bool)>) -> (
    SearchView,
    bool,
)
    decreases pairs.len(),
{
    if pairs.len() == 0 {
        (v, false)
    } else {
        let (w, stopped) = search_walk(v, last, pairs.drop_last());
        if stopped {
            (w, true)
        } else {
            let i = pairs.len() - 1;
            match search_bit(w, last, i, pairs.last().0, pairs.last().1) {
                Some(x) => (x, false),
                None => (w, true),
            }
        }
    }
}

/// `pairs` is what a pass reads from the bus: all 64 positions, or up to the
/// one at which it stops.
pub open spec fn search_pass_read(v: SearchView, pairs: Seq<(bool, bool)>) -> bool {
    let last = v.last_discrepancy();
    if pairs.len() == 0 {
        false
    } else {
        &&& pairs.len() <= 64
        &&& !search_walk(v, last, pairs.drop_last()).1
        &&& (search_walk(v, last, pairs).1 || pairs.len() == 64)
    }
}

/// One search call from cursor `v`: `presence` is the answer to the reset and
/// `pairs` the bit pairs read. The result is the new cursor and whether a
/// device was found (its address is then the new cursor's address).
pub open spec fn search_call(v: SearchView, presence: bool, pairs: Seq<(bool, bool)>) -> (
    SearchView,
    bool,
) {
    if v.state == SearchState::End || !presence {
        (v, false)
    } else if v.last_discrepancy() is None && v.state == SearchState::DeviceFound {
        (SearchView { state: SearchState::End, ..v }, false)
    } else {
        let (w, stopped) = search_walk(v, v.last_discrepancy(), pairs);
        if stopped {
            (w, false)
        } else {
            (
                SearchView {
                    state: if w.exhausted() {
                        SearchState::End
                    } else {
                        SearchState::DeviceFound
                    },
                    ..w
                },
                true,
            )
        }
    }
}

/// The bits that a search call reads: nothing when it returns before the
/// pass, else a pass.
pub open spec fn search_call_read(v: SearchView, presence: bool, pairs: Seq<(bool, bool)>) -> bool {
    if v.state == SearchState::End || !presence || (v.last_discrepancy() is None && v.state
        == SearchState::DeviceFound) {
        pairs.len() == 0
    } else {
        search_pass_read(v, pairs)
    }
}

/// An optional bit position as an integer.
pub open spec fn position(o: Option<u8>) -> Option<int> {
    match o {
        Some(k) => Some(k as int),
        None => None,
    }
}

/// Nothing is set below `n` exactly when there is no highest set position.
pub proof fn lemma_highest_set_none(d: Seq<bool>, n: int)
    requires
        0 <= n <= d.len(),
    ensures
        highest_set(d, n) is None <==> forall|i: int| 0 <= i < n ==> !d[i],
    decreases n,
{
    if n > 0 {
        lemma_highest_set_none(d, n - 1);
    }
}

/// The highest set position below `n` is set, and nothing above it is.
pub proof fn lemma_highest_set_some(d: Seq<bool>, n: int)
    requires
        0 <= n <= d.len(),
        highest_set(d, n) is Some,
    ensures
        0 <= highest_set(d, n)->0 < n,
        d[highest_set(d, n)->0],
        forall|j: int| highest_set(d, n)->0 < j < n ==> !d[j],
    decreases n,
{
    if !d[n - 1] {
        lemma_highest_set_some(d, n - 1);
    }
}

/// A pass never changes the seeded bits of the cursor.
proof fn lemma_walk_keeps_fixed(v: SearchView, last: Option<int>, pairs: Seq<(bool, bool)>)
    requires
        v.wf(),
        0 <= v.fixed <= 64,
        pairs.len() <= 64,
    ensures
        search_walk(v, last, pairs).0.wf(),
        search_walk(v, last, pairs).0.fixed == v.fixed,
        search_walk(v, last, pairs).0.state == v.state,
        search_walk(v, last, pairs).0.address.take(v.fixed) == v.address.take(v.fixed),
    decreases pairs.len(),
{
    if pairs.len() > 0 {
        lemma_walk_keeps_fixed(v, last, pairs.drop_last());
        let w = search_walk(v, last, pairs.drop_last()).0;
        let i = pairs.len() - 1;
        match search_bit(w, last, i, pairs.last().0, pairs.last().1) {
            Some(x) => {
                assert(x.address.take(v.fixed) =~= w.address.take(v.fixed));
            },
            None => {},
        }
    }
}

/// Two bytes with the same eight bits are equal.
proof fn lemma_byte_from_bits(a: u8, b: u8)
    requires
        forall|j: u8| j < 8 ==> (a & (1u8 << j) != 0) == (b & (1u8 << j) != 0),
    ensures
        a == b,
{
    assert((a & (1u8 << 0u8) != 0) == (b & (1u8 << 0u8) != 0));
    assert((a & (1u8 << 1u8) != 0) == (b & (1u8 << 1u8) != 0));
    assert((a & (1u8 << 2u8) != 0) == (b & (1u8 << 2u8) != 0));
    assert((a & (1u8 << 3u8) != 0) == (b & (1u8 << 3u8) != 0));
    assert((a & (1u8 << 4u8) != 0) == (b & (1u8 << 4u8) != 0));
    assert((a & (1u8 << 5u8) != 0) == (b & (1u8 << 5u8) != 0));
    assert((a & (1u8 << 6u8) != 0) == (b & (1u8 << 6u8) != 0));
    assert((a & (1u8 << 7u8) != 0) == (b & (1u8 << 7u8) != 0));
    assert(((a & (1u8 << 0u8) != 0) == (b & (1u8 << 0u8) != 0) && (a & (1u8 << 1u8) != 0) == (b & (
    1u8 << 1u8) != 0) && (a & (1u8 << 2u8) != 0) == (b & (1u8 << 2u8) != 0) && (a & (1u8 << 3u8)
        != 0) == (b & (1u8 << 3u8) != 0) && (a & (1u8 << 4u8) != 0) == (b & (1u8 << 4u8) != 0) && (
    a & (1u8 << 5u8) != 0) == (b & (1u8 << 5u8) != 0) && (a & (1u8 << 6u8) != 0) == (b & (1u8
        << 6u8) != 0) && (a & (1u8 << 7u8) != 0) == (b & (1u8 << 7u8) != 0)) ==> a == b)
        by (bit_vector);
}

pub(crate) proof fn lemma_bit_or(b: u8, k: u8, j: u8)
    requires
        k < 8,
        j < 8,
    ensures
        ((b | (1u8 << k)) & (1u8 << j) != 0) == (j == k || b & (1u8 << j) != 0),
{
    assert(((b | (1u8 << k)) & (1u8 << j) != 0) == (j == k || b & (1u8 << j) != 0))
        by (bit_vector)
        requires
            k < 8,
            j < 8,
    ;
}

proof fn lemma_bit_and_not(b: u8, k: u8, j: u8)
    requires
        k < 8,
        j < 8,
    ensures
        ((b & !(1u8 << k)) & (1u8 << j) != 0) == (j != k && b & (1u8 << j) != 0),
{
    assert(((b & !(1u8 << k)) & (1u8 << j) != 0) == (j != k && b & (1u8 << j) != 0))
        by (bit_vector)
        requires
            k < 8,
            j < 8,
    ;
}

/// The bits of `s` with byte `bit / 8` replaced by `x` are those of `s` with
/// bit `bit` set to `value`, where `x` agrees with the old byte elsewhere.
proof fn lemma_bits_of_update(s: Seq<u8>, bit: int, x: u8, value: bool)
    requires
        s.len() == 8,
        0 <= bit < 64,
        forall|j: u8|
            j < 8 ==> ((x & (1u8 << j) != 0) == (if j as int == bit % 8 {
                value
            } else {
                s[bit / 8] & (1u8 << j) != 0
            })),
    ensures
        bits_of(s.update(bit / 8, x)) == bits_of(s).update(bit, value),
{
    let t = s.update(bit / 8, x);
    assert forall|i: int| 0 <= i < 64 implies bits_of(t)[i] == bits_of(s).update(bit, value)[i] by {
        if i / 8 == bit / 8 {
            assert(((i % 8) as u8) < 8);
            assert(i == bit <==> i % 8 == bit % 8);
        }
    }
    assert(bits_of(t) =~= bits_of(s).update(bit, value));
}

/// A resumable enumeration of the devices on a bus: one device per search
/// call, each exactly once. A search made for one family sends its family
/// code as given and finds the devices of that family only.
#[derive(Clone, Debug)]
pub struct DeviceSearch {
    address: [u8; 8],
    discrepancies: [u8; 8],
    state: SearchState,
    fixed: u8,
}

impl View for DeviceSearch {
    type V = SearchView;

    closed spec fn view(&self) -> SearchView {
        SearchView {
            address: bits_of(self.address@),
            discrepancies: bits_of(self.discrepancies@),
            state: self.state,
            fixed: self.fixed as int,
        }
    }
}

impl DeviceSearch {
    /// The address bytes that the search has assembled.
    pub closed spec fn address_bytes(&self) -> Seq<u8> {
        self.address@
    }

    /// The model has 64 positions and matches the address bytes.
    pub proof fn lemma_view(&self)
        ensures
            self@.wf(),
            self.address_bytes().len() == 8,
            bits_of(self.address_bytes()) == self@.address,
    {
    }

    /// A search made for one family stays in it: the cursor that a search
    /// call leaves, and so every address it finds, keeps the family code.
    pub proof fn lemma_search_keeps_family(
        before: &DeviceSearch,
        after: &DeviceSearch,
        presence: bool,
        pairs: Seq<(bool, bool)>,
    )
        requires
            before@.fixed == 8,
            pairs.len() <= 64,
            search_call(before@, presence, pairs).0 == after@,
        ensures
            after@.fixed == 8,
            after.address_bytes()[0] == before.address_bytes()[0],
    {
        before.lemma_view();
        after.lemma_view();
        lemma_walk_keeps_fixed(before@, before@.last_discrepancy(), pairs);
        let a = after.address_bytes();
        let b = before.address_bytes();
        assert(after@.address.take(8) == before@.address.take(8));
        assert forall|j: u8| j < 8 implies (a[0] & (1u8 << j) != 0) == (b[0] & (1u8 << j) != 0) by {
            assert(after@.address.take(8)[j as int] == before@.address.take(8)[j as int]);
            assert(bits_of(a)[j as int] == bit_at(a, j as int));
            assert((j as int) / 8 == 0 && (j as int) % 8 == j as int);
        }
        lemma_byte_from_bits(a[0], b[0]);
    }

    /// A fresh search: nothing found, nothing pending.
    pub fn new() -> (r: DeviceSearch)
        ensures
            r@.state == SearchState::Initialized,
            r@.wf(),
            r@.fixed == 0,
            r@.address == Seq::new(64, |i: int| false),
            r@.exhausted(),
            r.address_bytes() == Seq::new(8, |i: int| 0u8),
    {
        let r = DeviceSearch { address: [0u8; 8], discrepancies: [0u8; 8], state: SearchState::Initialized, fixed: 0 };
        assert forall|i: int| 0 <= i < 64 implies !bit_at(r.address@, i) && !bit_at(r.discrepancies@, i) by {
            let k = (i % 8) as u8;
            assert(0u8 & (1u8 << k) == 0) by (bit_vector);
        }
        assert(r@.address =~= Seq::new(64, |i: int| false));
        assert(r.address@ =~= Seq::new(8, |i: int| 0u8));
        r
    }

    /// A fresh search whose first address byte is `family`.
    pub fn new_for_family(family: u8) -> (r: DeviceSearch)
        ensures
            r@.state == SearchState::Initialized,
            r@.wf(),
            r@.exhausted(),
            r@.fixed == 8,
            r.address_bytes() == seq![family, 0u8, 0u8, 0u8, 0u8, 0u8, 0u8, 0u8],
    {
        let mut search = DeviceSearch::new();
        search.address[0] = family;
        search.fixed = 8;
        assert(search.address@ =~= seq![family, 0u8, 0u8, 0u8, 0u8, 0u8, 0u8, 0u8]);
        search
    }

    fn is_bit_set(array: &[u8; 8], bit: u8) -> (r: bool)
        ensures
            r == (bit < 64 && bit_at(array@, bit as int)),
    {
        if bit / 8 >= 8 {
            return false;
        }
        let index = bit / 8;
        let offset = bit % 8;
        array[index as usize] & (0x01u8 << offset) != 0x00
    }

    fn set_bit(array: &mut [u8; 8], bit: u8)
        ensures
            bit < 64 ==> bits_of(final(array)@) == bits_of(old(array)@).update(bit as int, true),
            bit >= 64 ==> *final(array) == *old(array),
    {
        if bit / 8 >= 8 {
            return;
        }
        let index = bit / 8;
        let offset = bit % 8;
        let x = array[index as usize] | (0x01u8 << offset);
        proof {
            let b = old(array)@[index as int];
            assert forall|j: u8| j < 8 implies ((x & (1u8 << j) != 0) == (if j as int == bit
                % 8 {
                true
            } else {
                b & (1u8 << j) != 0
            })) by {
                lemma_bit_or(b, offset, j);
            }
            lemma_bits_of_update(old(array)@, bit as int, x, true);
        }
        array[index as usize] = x;
    }

    fn reset_bit(array: &mut [u8; 8], bit: u8)
        ensures
            bit < 64 ==> bits_of(final(array)@) == bits_of(old(array)@).update(bit as int, false),
            bit >= 64 ==> *final(array) == *old(array),
    {
        if bit / 8 >= 8 {
            return;
        }
        let index = bit / 8;
        let offset = bit % 8;
        let x = array[index as usize] & !(0x01u8 << offset);
        proof {
            let b = old(array)@[index as int];
            assert forall|j: u8| j < 8 implies ((x & (1u8 << j) != 0) == (if j as int == bit
                % 8 {
                false
            } else {
                b & (1u8 << j) != 0
            })) by {
                lemma_bit_and_not(b, offset, j);
            }
            lemma_bits_of_update(old(array)@, bit as int, x, false);
        }
        array[index as usize] = x;
    }

    fn is_bit_set_in_address(&self, bit: u8) -> (r: bool)
        ensures
            r == (bit < 64 && self@.address[bit as int]),
    {
        DeviceSearch::is_bit_set(&self.address, bit)
    }

    fn set_bit_in_address(&mut self, bit: u8)
        requires
            bit < 64,
        ensures
            final(self)@ == old(self)@.with_address_bit(bit as int, true),
    {
        DeviceSearch::set_bit(&mut self.address, bit);
    }

    fn reset_bit_in_address(&mut self, bit: u8)
        requires
            bit < 64,
        ensures
            final(self)@ == old(self)@.with_address_bit(bit as int, false),
    {
        DeviceSearch::reset_bit(&mut self.address, bit);
    }

    fn write_bit_in_address(&mut self, bit: u8, value: bool)
        requires
            bit < 64,
        ensures
            final(self)@ == old(self)@.with_address_bit(bit as int, value),
    {
        if value {
            self.set_bit_in_address(bit);
        } else {
            self.reset_bit_in_address(bit);
        }
    }

    fn is_bit_set_in_discrepancies(&self, bit: u8) -> (r: bool)
        ensures
            r == (bit < 64 && self@.discrepancies[bit as int]),
    {
        DeviceSearch::is_bit_set(&self.discrepancies, bit)
    }

    fn set_bit_in_discrepancy(&mut self, bit: u8)
        requires
            bit < 64,
        ensures
            final(self)@ == old(self)@.with_discrepancy(bit as int, true),
    {
        DeviceSearch::set_bit(&mut self.discrepancies, bit);
    }

    fn reset_bit_in_discrepancy(&mut self, bit: u8)
        requires
            bit < 64,
        ensures
            final(self)@ == old(self)@.with_discrepancy(bit as int, false),
    {
        DeviceSearch::reset_bit(&mut self.discrepancies, bit);
    }

    #[allow(dead_code)]
    fn write_bit_in_discrepancy(&mut self, bit: u8, value: bool)
        requires
            bit < 64,
        ensures
            final(self)@ == old(self)@.with_discrepancy(bit as int, value),
    {
        if value {
            self.set_bit_in_discrepancy(bit);
        } else {
            self.reset_bit_in_discrepancy(bit);
        }
    }

    /// The highest position with a branch still to explore.
    pub fn last_discrepancy(&self) -> (r: Option<u8>)
        ensures
            self@.last_discrepancy() == position(r),
    {
        let mut result: Option<u8> = None;
        let mut i: u8 = 0;
        while i < 64
            invariant
                i <= 64,
                self@.wf(),
                highest_set(self@.discrepancies, i as int) == position(result),
            decreases 64 - i,
        {
            if self.is_bit_set_in_discrepancies(i) {
                result = Some(i);
            }
            i = i + 1;
        }
        result
    }

    /// No branch is pending.
    pub(crate) fn is_exhausted(&self) -> (r: bool)
        ensures
            r == self@.exhausted(),
    {
        proof {
            lemma_highest_set_none(self@.discrepancies, 64);
        }
        self.last_discrepancy().is_none()
    }

    /// A copy of the cursor.
    pub(crate) fn snapshot(&self) -> (r: DeviceSearch)
        ensures
            r@ == self@,
            r.address_bytes() == self.address_bytes(),
    {
        DeviceSearch {
            address: self.address,
            discrepancies: self.discrepancies,
            state: self.state,
            fixed: self.fixed,
        }
    }

    pub(crate) fn state(&self) -> (r: SearchState)
        ensures
            r == self@.state,
    {
        self.state
    }

    pub(crate) fn set_state(&mut self, state: SearchState)
        ensures
            final(self)@ == (SearchView { state, ..old(self)@ }),
    {
        self.state = state;
    }

    /// The device whose address the search has assembled.
    pub(crate) fn device(&self) -> (r: Device)
        ensures
            bits_of(r.address@) == self@.address,
            r.address@ == self.address_bytes(),
    {
        Device { address: self.address }
    }

    /// Takes position `i` of a search pass, given the bit and complement
    /// that the bus answered, and returns the bit to send back; `None` when
    /// no device answered.
    pub(crate) fn choose_bit(&mut self, i: u8, last: Option<u8>, bit0: bool, bit1: bool) -> (r:
        Option<bool>)
        requires
            i < 64,
            last is Some ==> last->0 < 64,
        ensures
            search_bit(old(self)@, position(last), i as int, bit0, bit1) == (match r {
                Some(_) => Some(final(self)@),
                None => None,
            }),
            r is None ==> final(self)@ == old(self)@,
            r is Some ==> final(self)@.address[i as int] == r->0,
    {
        proof {
            self.lemma_view();
        }
        let replay = i < self.fixed || match last {
            Some(l) => i < l,
            None => false,
        };
        let resume = match last {
            Some(l) => i == l,
            None => false,
        };
        if replay {
            if bit0 && bit1 {
                None
            } else {
                Some(self.is_bit_set_in_address(i))
            }
        } else if resume {
            self.reset_bit_in_discrepancy(i);
            self.set_bit_in_address(i);
            proof {
                assert(final(self)@.address =~= old(self)@.address.update(i as int, true));
            }
            Some(true)
        } else if bit0 && bit1 {
            None
        } else if !bit0 && !bit1 {
            self.set_bit_in_discrepancy(i);
            self.reset_bit_in_address(i);
            Some(false)
        } else {
            self.write_bit_in_address(i, bit0);
            Some(bit0)
        }
    }
}

impl Default for DeviceSearch {
    /// A fresh search, as [`DeviceSearch::new`].
    fn default() -> (r: DeviceSearch)
        ensures
            r@.state == SearchState::Initialized,
            r@.wf(),
            r@.fixed == 0,
            r@.address == Seq::new(64, |i: int| false),
            r@.exhausted(),
            r.address_bytes() == Seq::new(8, |i: int| 0u8),
    {
        DeviceSearch::new()
    }
}

} // verus!
