//! Byte offsets into a source text and half-open ranges between them.
use vstd::prelude::*;
use vstd::std_specs::ops::AddSpecImpl;
use vstd::std_specs::ops::SubSpecImpl;

verus! {

/// A byte offset into, or a byte length of, a source text.
#[derive(Clone, Copy, Debug, PartialEq, Eq, Structural, PartialOrd, Ord, Hash)]
pub struct TextUnit(pub u32);

impl TextUnit {
    /// The offset of the first byte.
    pub fn zero() -> (r: TextUnit)
        ensures
            r == TextUnit(0),
    {
        TextUnit(0)
    }

    /// Keeps the low 32 bits of `n`.
    pub fn from_usize(n: usize) -> (r: TextUnit)
        ensures
            r.0 as int == (n as int) % 0x1_0000_0000,
            n <= u32::MAX ==> r.0 == n,
    {
        let wide: u64 = n as u64;
        let low: u64 = wide % 0x1_0000_0000;
        TextUnit(low as u32)
    }

    /// The offset as a number.
    pub fn as_u32(&self) -> (r: u32)
        ensures
            r == self.0,
    {
        self.0
    }

    /// The length of `text` in bytes, reduced to 32 bits.
    pub fn measure(text: &str) -> (r: TextUnit)
        ensures
            r.0 as int == (text.len() as int) % 0x1_0000_0000,
            text.len() <= u32::MAX ==> r.0 == text.len(),
    {
        TextUnit::from_usize(text.len())
    }

    /// Adds the units of `items` from left to right.
    pub fn sum(items: &[TextUnit]) -> (r: TextUnit)
        requires
            total(items@) <= u32::MAX,
        ensures
            r.0 == total(items@),
    {
        let mut acc: u32 = 0;
        let mut i: usize = 0;
        while i < items.len()
            invariant
                i <= items.len(),
                acc == total(items@.take(i as int)),
                total(items@) <= u32::MAX,
            decreases items.len() - i,
        {
            proof {
                assert(items@.take(i + 1).drop_last() =~= items@.take(i as int));
                lemma_total_prefix(items@, i + 1);
            }
            acc = acc + items[i].0;
            i += 1;
        }
        proof {
            assert(items@.take(i as int) =~= items@);
        }
        TextUnit(acc)
    }
}

/// The sum of the units in `items`.
pub open spec fn total(items: Seq<TextUnit>) -> nat
    decreases items.len(),
{
    if items.len() == 0 {
        0
    } else {
        total(items.drop_last()) + items.last().0 as nat
    }
}

/// A prefix never sums to more than the whole.
pub proof fn lemma_total_prefix(items: Seq<TextUnit>, n: int)
    requires
        0 <= n <= items.len(),
    ensures
        total(items.take(n)) <= total(items),
    decreases items.len(),
{
    if n == items.len() {
        assert(items.take(n) =~= items);
    } else {
        lemma_total_prefix(items.drop_last(), n);
        assert(items.drop_last().take(n) =~= items.take(n));
    }
}

impl core::ops::Add<u32> for TextUnit {
    type Output = TextUnit;

    fn add(self, rhs: u32) -> (r: TextUnit) {
        TextUnit(self.0 + rhs)
    }
}

impl AddSpecImpl<u32> for TextUnit {
    open spec fn obeys_add_spec() -> bool {
        true
    }

    open spec fn add_req(self, rhs: u32) -> bool {
        self.0 + rhs <= u32::MAX
    }

    open spec fn add_spec(self, rhs: u32) -> TextUnit {
        TextUnit((self.0 + rhs) as u32)
    }
}

impl core::ops::Add<TextUnit> for TextUnit {
    type Output = TextUnit;

    fn add(self, rhs: TextUnit) -> (r: TextUnit) {
        TextUnit(self.0 + rhs.0)
    }
}

impl AddSpecImpl<TextUnit> for TextUnit {
    open spec fn obeys_add_spec() -> bool {
        true
    }

    open spec fn add_req(self, rhs: TextUnit) -> bool {
        self.0 + rhs.0 <= u32::MAX
    }

    open spec fn add_spec(self, rhs: TextUnit) -> TextUnit {
        TextUnit((self.0 + rhs.0) as u32)
    }
}

impl core::ops::Sub<u32> for TextUnit {
    type Output = TextUnit;

    fn sub(self, rhs: u32) -> (r: TextUnit) {
        TextUnit(self.0 - rhs)
    }
}

impl SubSpecImpl<u32> for TextUnit {
    open spec fn obeys_sub_spec() -> bool {
        true
    }

    open spec fn sub_req(self, rhs: u32) -> bool {
        rhs <= self.0
    }

    open spec fn sub_spec(self, rhs: u32) -> TextUnit {
        TextUnit((self.0 - rhs) as u32)
    }
}

impl core::ops::Sub<TextUnit> for TextUnit {
    type Output = TextUnit;

    fn sub(self, rhs: TextUnit) -> (r: TextUnit) {
        TextUnit(self.0 - rhs.0)
    }
}

impl SubSpecImpl<TextUnit> for TextUnit {
    open spec fn obeys_sub_spec() -> bool {
        true
    }

    open spec fn sub_req(self, rhs: TextUnit) -> bool {
        rhs.0 <= self.0
    }

    open spec fn sub_spec(self, rhs: TextUnit) -> TextUnit {
        TextUnit((self.0 - rhs.0) as u32)
    }
}

impl core::ops::AddAssign<TextUnit> for TextUnit {
    /// Moves this offset forward by `rhs` in place.
    fn add_assign(&mut self, rhs: TextUnit)
        requires
            old(self).0 + rhs.0 <= u32::MAX,
        ensures
            final(self).0 == old(self).0 + rhs.0,
    {
        self.0 = self.0 + rhs.0;
    }
}


/// A half-open range of bytes, from `start` up to but not including `end`.
#[derive(Clone, Copy, Debug, PartialEq, Eq, Structural, Hash)]
pub struct TextRange {
    pub start: TextUnit,
    pub end: TextUnit,
}

impl TextRange {
    /// The empty range at the start of a text.
    pub open spec fn spec_default() -> TextRange {
        TextRange { start: TextUnit(0), end: TextUnit(0) }
    }

    /// A range is well formed when it does not end before it starts.
    pub open spec fn wf(self) -> bool {
        self.start.0 <= self.end.0
    }

    /// The number of bytes in the range.
    pub open spec fn spec_len(self) -> int {
        self.end.0 - self.start.0
    }

    /// Whether `offset` is the offset of a byte of the range. The end of
    /// the range is the offset of the first byte behind it.
    pub open spec fn spec_contains(self, offset: TextUnit) -> bool {
        self.start.0 <= offset.0 < self.end.0
    }

    /// Whether every offset of this range lies in `other`.
    pub open spec fn spec_is_subrange_of(self, other: TextRange) -> bool {
        other.start.0 <= self.start.0 && self.end.0 <= other.end.0
    }

    /// Whether one of the two ranges ends where the other starts.
    pub open spec fn spec_touches(self, other: TextRange) -> bool {
        self.end == other.start || other.end == self.start
    }

    /// The zero-width range at `offset`.
    pub fn empty_at(offset: TextUnit) -> (r: TextRange)
        ensures
            r == (TextRange { start: offset, end: offset }),
            r.wf(),
    {
        TextRange { start: offset, end: offset }
    }

    /// The range from `start` to `end`.
    pub fn from_to(start: TextUnit, end: TextUnit) -> (r: TextRange)
        requires
            start.0 <= end.0,
        ensures
            r == (TextRange { start, end }),
            r.wf(),
    {
        TextRange { start, end }
    }

    /// The offset of the first byte of the range.
    pub fn start(&self) -> (r: TextUnit)
        ensures
            r == self.start,
    {
        self.start
    }

    /// The offset behind the last byte of the range.
    pub fn end(&self) -> (r: TextUnit)
        ensures
            r == self.end,
    {
        self.end
    }

    /// The number of bytes in the range.
    pub fn len(&self) -> (r: TextUnit)
        requires
            self.wf(),
        ensures
            r.0 == self.spec_len(),
    {
        TextUnit(self.end.0 - self.start.0)
    }

    /// Whether the range holds no byte.
    pub fn is_empty(&self) -> (r: bool)
        ensures
            r == (self.start == self.end),
    {
        self.start.0 == self.end.0
    }

    /// Whether `offset` is the offset of a byte of the range.
    pub fn contains(&self, offset: TextUnit) -> (r: bool)
        ensures
            r == self.spec_contains(offset),
    {
        self.start.0 <= offset.0 && offset.0 < self.end.0
    }

    /// Whether one of the two ranges ends where the other starts.
    pub fn touches(&self, other: TextRange) -> (r: bool)
        ensures
            r == self.spec_touches(other),
    {
        self.end.0 == other.start.0 || other.end.0 == self.start.0
    }

    /// Whether every offset of this range lies in `other`.
    pub fn is_subrange_of(&self, other: TextRange) -> (r: bool)
        ensures
            r == self.spec_is_subrange_of(other),
    {
        other.start.0 <= self.start.0 && self.end.0 <= other.end.0
    }
}

impl core::ops::Add<TextUnit> for TextRange {
    type Output = TextRange;

    fn add(self, rhs: TextUnit) -> (r: TextRange) {
        TextRange { start: TextUnit(self.start.0 + rhs.0), end: TextUnit(self.end.0 + rhs.0) }
    }
}

impl AddSpecImpl<TextUnit> for TextRange {
    open spec fn obeys_add_spec() -> bool {
        true
    }

    open spec fn add_req(self, rhs: TextUnit) -> bool {
        self.start.0 + rhs.0 <= u32::MAX && self.end.0 + rhs.0 <= u32::MAX
    }

    open spec fn add_spec(self, rhs: TextUnit) -> TextRange {
        TextRange {
            start: TextUnit((self.start.0 + rhs.0) as u32),
            end: TextUnit((self.end.0 + rhs.0) as u32),
        }
    }
}

} // verus!
