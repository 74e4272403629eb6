//! The value table of a character map, and the reader of input codes.

use crate::bytes::{
    bytes_are, first_char, lemma_pack_push, pack, pack_bytes, pow256, shift_in,
};
use std::collections::HashMap;
use vstd::prelude::*;
use vstd::string::StrSliceExecFns;
use vstd::string::StringSliceAdditionalSpecFns;

verus! {

broadcast use vstd::std_specs::hash::group_hash_axioms;

/// The widest span a range directive may map: `high - low` may not exceed it.
pub const MAX_MAP_RANGE: u32 = 0xFF_FFFF;

/// An integer reduced to 32 bits.
pub open spec fn wrap32(x: int) -> u32 {
    (x % 0x1_0000_0000) as u32
}

/// Whether `code` lies within the inclusive bounds `range`.
pub open spec fn in_range(range: (u32, u32), code: u32) -> bool {
    range.0 <= code <= range.1
}

/// A byte string counted up by one as a number, most significant byte
/// first: a byte at `0xFF` rolls over to zero and carries to its left.
pub open spec fn carry_increment(s: Seq<u8>) -> Seq<u8>
    decreases s.len(),
{
    if s.len() == 0 {
        s
    } else if s.last() < 0xff {
        s.drop_last().push((s.last() + 1) as u8)
    } else {
        carry_increment(s.drop_last()).push(0u8)
    }
}

/// The destination string that follows `s` in a range of destinations.  A
/// string of the single byte `0xFF` has no successor and stays as it is.
pub open spec fn bf_successor(s: Seq<u8>) -> Seq<u8> {
    if s.len() == 1 && s[0] == 0xff {
        s
    } else {
        carry_increment(s)
    }
}

/// The destination string `steps` places after `s`.
pub open spec fn bf_advance(s: Seq<u8>, steps: nat) -> Seq<u8>
    decreases steps,
{
    if steps == 0 {
        s
    } else {
        bf_successor(bf_advance(s, (steps - 1) as nat))
    }
}

/// What a character map holds, as mathematical values.
pub struct CMapView {
    /// The declared name.
    pub name: Seq<u8>,
    /// The writing mode: `true` is vertical.
    pub vertical: bool,
    /// The codespace ranges: entry `n - 1` holds, in the order in which they
    /// were added, the inclusive bounds of the codes that are `n` bytes long.
    pub codespace: Seq<Seq<(u32, u32)>>,
    /// From input code to character identifier or Unicode value.
    pub map: Map<u32, u32>,
}

impl CMapView {
    /// No name, horizontal, no ranges, no mappings.
    pub open spec fn empty() -> CMapView {
        CMapView {
            name: Seq::empty(),
            vertical: false,
            codespace: Seq::new(4, |i: int| Seq::empty()),
            map: Map::empty(),
        }
    }

    /// The horizontal identity map: named `Identity-H`, with the two-byte
    /// codes as its codespace.
    pub open spec fn identity_h() -> CMapView {
        Self::empty().with_name("Identity-H".spec_bytes()).add_codespace_range(2, 0, 0xFFFF)
    }

    /// The vertical identity map: named `Identity-V`, with the two-byte
    /// codes as its codespace.
    pub open spec fn identity_v() -> CMapView {
        Self::empty().with_name("Identity-V".spec_bytes()).with_vertical(
            true,
        ).add_codespace_range(2, 0, 0xFFFF)
    }

    /// There is one sequence of ranges for each of the code lengths 1 to 4.
    pub open spec fn wf(self) -> bool {
        self.codespace.len() == 4
    }

    /// The codespace ranges of the codes that are `n` bytes long.
    pub open spec fn ranges(self, n: int) -> Seq<(u32, u32)> {
        if 1 <= n <= 4 && n <= self.codespace.len() {
            self.codespace[n - 1]
        } else {
            Seq::empty()
        }
    }

    /// Whether the bounds `range` of codes of `n` bytes are in order and fit
    /// in `n` bytes.
    pub open spec fn range_fits(n: int, range: (u32, u32)) -> bool {
        range.0 <= range.1 && range.1 < pow256(n as nat)
    }

    /// Whether the bounds of every codespace range are in order and fit in
    /// the bytes of its length.  The maps that the constructors make are
    /// so, and stay so as long as the ranges that are added are.
    pub open spec fn codespace_fits(self) -> bool {
        forall|n: int, i: int|
            1 <= n <= 4 && 0 <= i < self.ranges(n).len() ==> Self::range_fits(
                n,
                #[trigger] self.ranges(n)[i],
            )
    }

    /// The same map under the name `name`.
    pub open spec fn with_name(self, name: Seq<u8>) -> CMapView {
        CMapView { name, ..self }
    }

    /// The same map in the writing mode `vertical`.
    pub open spec fn with_vertical(self, vertical: bool) -> CMapView {
        CMapView { vertical, ..self }
    }

    /// The range `(low, high)` added behind those of length `n`; nothing
    /// changes for an `n` outside 1 to 4.
    pub open spec fn add_codespace_range(self, n: int, low: u32, high: u32) -> CMapView {
        if 1 <= n <= 4 && n <= self.codespace.len() {
            CMapView {
                codespace: self.codespace.update(n - 1, self.codespace[n - 1].push((low, high))),
                ..self
            }
        } else {
            self
        }
    }

    /// `src` mapped to `dst`, whatever it was mapped to before.
    pub open spec fn map_one(self, src: u32, dst: u32) -> CMapView {
        CMapView { map: self.map.insert(src, dst), ..self }
    }

    /// Every code from `low` to `high` mapped to `dst_low` plus its distance
    /// from `low`, reduced to 32 bits; `None` for a span over `MAX_MAP_RANGE`.
    pub open spec fn map_cid_range(self, low: u32, high: u32, dst_low: u32) -> Option<CMapView> {
        if high - low > MAX_MAP_RANGE {
            None
        } else {
            Some(
                CMapView {
                    map: Map::new(
                        |k: u32| self.map.contains_key(k) || low <= k <= high,
                        |k: u32|
                            if low <= k <= high {
                                wrap32(dst_low + (k - low))
                            } else {
                                self.map[k]
                            },
                    ),
                    ..self
                },
            )
        }
    }

    /// Every code from `low` to `high` mapped to the first character of the
    /// destination string that many places after `dst`; `None` for a span
    /// over `MAX_MAP_RANGE`.
    pub open spec fn map_bf_range(self, low: u32, high: u32, dst: Seq<u8>) -> Option<CMapView> {
        if high - low > MAX_MAP_RANGE {
            None
        } else {
            Some(
                CMapView {
                    map: Map::new(
                        |k: u32| self.map.contains_key(k) || low <= k <= high,
                        |k: u32|
                            if low <= k <= high {
                                first_char(bf_advance(dst, (k - low) as nat))
                            } else {
                                self.map[k]
                            },
                    ),
                    ..self
                },
            )
        }
    }

    /// The codes from `low` on mapped to `values` in turn, as far as `high`
    /// and the values reach; `None` for a span over `MAX_MAP_RANGE`.
    pub open spec fn map_bf_range_to_array(self, low: u32, high: u32, values: Seq<u32>) -> Option<
        CMapView,
    > {
        if high - low > MAX_MAP_RANGE {
            None
        } else {
            Some(
                CMapView {
                    map: Map::new(
                        |k: u32|
                            self.map.contains_key(k) || (low <= k <= high && k - low
                                < values.len()),
                        |k: u32|
                            if low <= k <= high && k - low < values.len() {
                                values[k - low]
                            } else {
                                self.map[k]
                            },
                    ),
                    ..self
                },
            )
        }
    }

    /// An identity map is named `Identity-H` or `Identity-V` and maps nothing
    /// itself.
    pub open spec fn is_identity(self) -> bool {
        (self.name == "Identity-H".spec_bytes() || self.name == "Identity-V".spec_bytes())
            && self.map.dom() == Set::<u32>::empty()
    }

    /// The value of `code`: what it is mapped to; else, in an identity map,
    /// the code itself as far as it fits in 16 bits; else nothing.
    pub open spec fn lookup(self, code: u32) -> Option<u32> {
        if self.map.contains_key(code) {
            Some(self.map[code])
        } else if self.is_identity() && code <= 0xFFFF {
            Some(code)
        } else {
            None
        }
    }

    /// Whether a codespace range of length `n` holds `code`.
    pub open spec fn claims(self, n: int, code: u32) -> bool {
        exists|i: int| 0 <= i < self.ranges(n).len() && in_range(#[trigger] self.ranges(n)[i], code)
    }

    /// The code made of the `n` bytes of `bytes` from `offset` on.
    pub open spec fn code_at(bytes: Seq<u8>, offset: int, n: int) -> u32 {
        pack(bytes.subrange(offset, offset + n))
    }

    /// The code read at `offset` when no length under `n` has matched: the
    /// shortest length from `n` to 4, within the bytes that are left, whose
    /// code a codespace range of that length holds; `(0, 1)` if there is none.
    pub open spec fn read_code_from(self, bytes: Seq<u8>, offset: int, n: int) -> (u32, int)
        decreases 5 - n,
    {
        if n < 1 || n > 4 || offset + n > bytes.len() {
            (0u32, 1int)
        } else if self.claims(n, Self::code_at(bytes, offset, n)) {
            (Self::code_at(bytes, offset, n), n)
        } else {
            self.read_code_from(bytes, offset, n + 1)
        }
    }

    /// The code read at `offset` and its length in bytes; `(0, 1)` where no
    /// range matches or no byte is left.
    pub open spec fn read_code(self, bytes: Seq<u8>, offset: int) -> (u32, int) {
        if 0 <= offset < bytes.len() {
            self.read_code_from(bytes, offset, 1)
        } else {
            (0u32, 1int)
        }
    }
}

/// A character map: codespace ranges and a table from input codes to values.
#[derive(Debug)]
pub struct CMap {
    codespace_ranges: [Vec<(u32, u32)>; 4],
    map: HashMap<u32, u32>,
    name: Vec<u8>,
    vertical: bool,
}

impl View for CMap {
    type V = CMapView;

    closed spec fn view(&self) -> CMapView {
        CMapView {
            name: self.name@,
            vertical: self.vertical,
            codespace: Seq::new(4, |i: int| self.codespace_ranges@[i]@),
            map: self.map@,
        }
    }
}

/// `base` with the first `count` codes from `low` on mapped to consecutive
/// values from `dst_low` on.
spec fn cid_mapped(base: Map<u32, u32>, low: u32, count: int, dst_low: u32) -> Map<u32, u32> {
    Map::new(
        |k: u32| base.contains_key(k) || low <= k < low + count,
        |k: u32|
            if low <= k < low + count {
                wrap32(dst_low + (k - low))
            } else {
                base[k]
            },
    )
}

/// `base` with the first `count` codes from `low` on mapped to the first
/// characters of the destinations from `dst` on.
spec fn bf_mapped(base: Map<u32, u32>, low: u32, count: int, dst: Seq<u8>) -> Map<u32, u32> {
    Map::new(
        |k: u32| base.contains_key(k) || low <= k < low + count,
        |k: u32|
            if low <= k < low + count {
                first_char(bf_advance(dst, (k - low) as nat))
            } else {
                base[k]
            },
    )
}

/// `base` with the first `count` codes from `low` on mapped to the first
/// `count` of `values`.
spec fn array_mapped(base: Map<u32, u32>, low: u32, count: int, values: Seq<u32>) -> Map<
    u32,
    u32,
> {
    Map::new(
        |k: u32| base.contains_key(k) || low <= k < low + count,
        |k: u32|
            if low <= k < low + count {
                values[k - low]
            } else {
                base[k]
            },
    )
}

/// The code point of the first character of a destination string.
pub fn bf_string_char(s: &[u8]) -> (c: u32)
    ensures
        c == first_char(s@),
{
    if s.len() == 0 {
        0
    } else {
        s[0] as u32
    }
}

/// The 32-bit code of a source string.
pub fn str_to_int(s: &[u8]) -> (code: u32)
    ensures
        code == pack(s@),
{
    pack_bytes(s)
}

/// Counts a destination string up to its successor.
pub fn bf_increment(s: &mut Vec<u8>)
    ensures
        final(s)@ == bf_successor(old(s)@),
{
    let n = s.len();
    if n == 1 && s[0] == 0xff {
        return;
    }
    let mut i: usize = n;
    assert(s@.subrange(0, i as int) =~= s@);
    assert(s@.subrange(i as int, n as int) =~= Seq::<u8>::empty());
    while i > 0
        invariant
            i <= n,
            s.len() == n,
            old(s)@.len() == n,
            s@.subrange(0, i as int) == old(s)@.subrange(0, i as int),
            carry_increment(old(s)@) == carry_increment(old(s)@.subrange(0, i as int)) + s@.subrange(
                i as int,
                n as int,
            ),
        decreases i,
    {
        let ghost before = s@;
        let ghost head = old(s)@.subrange(0, i as int);
        i -= 1;
        assert(head.drop_last() =~= old(s)@.subrange(0, i as int));
        assert(head.last() == old(s)@[i as int]);
        assert(before[i as int] == head[i as int]);
        if s[i] == 0xff {
            s[i] = 0;
            assert(s@.subrange(0, i as int) =~= old(s)@.subrange(0, i as int));
            assert(carry_increment(head.drop_last()).push(0u8) + before.subrange(i + 1, n as int)
                =~= carry_increment(head.drop_last()) + s@.subrange(i as int, n as int));
        } else {
            s[i] = s[i] + 1;
            assert(s@ =~= head.drop_last().push((head.last() + 1) as u8) + before.subrange(
                i + 1,
                n as int,
            ));
            return;
        }
    }
    assert(s@.subrange(0, n as int) =~= s@);
}

impl CMap {
    /// Every character map holds one sequence of ranges for each code length.
    pub proof fn lemma_view_wf(&self)
        ensures
            self@.wf(),
    {
    }

    /// An empty map: no ranges, no mappings, no name, horizontal.
    pub fn new() -> (cmap: CMap)
        ensures
            cmap@ == CMapView::empty(),
    {
        let cmap = CMap {
            codespace_ranges: [Vec::new(), Vec::new(), Vec::new(), Vec::new()],
            map: HashMap::new(),
            name: Vec::new(),
            vertical: false,
        };
        assert(cmap@.codespace =~= CMapView::empty().codespace);
        cmap
    }

    /// The horizontal identity map over the two-byte codes.
    pub fn identity_h() -> (cmap: CMap)
        ensures
            cmap@ == CMapView::identity_h(),
    {
        let mut cmap = CMap::new();
        cmap.name = "Identity-H".as_bytes_vec();
        cmap.vertical = false;
        cmap.add_codespace_range(2, 0, 0xFFFF);
        cmap
    }

    /// The vertical identity map over the two-byte codes.
    pub fn identity_v() -> (cmap: CMap)
        ensures
            cmap@ == CMapView::identity_v(),
    {
        let mut cmap = CMap::new();
        cmap.name = "Identity-V".as_bytes_vec();
        cmap.vertical = true;
        cmap.add_codespace_range(2, 0, 0xFFFF);
        cmap
    }

    /// The declared name.
    pub fn name(&self) -> (name: &[u8])
        ensures
            name@ == self@.name,
    {
        self.name.as_slice()
    }

    /// Declares the name.
    pub fn set_name(&mut self, name: Vec<u8>)
        ensures
            final(self)@ == old(self)@.with_name(name@),
    {
        self.name = name;
    }

    /// Whether the writing mode is vertical.
    pub fn is_vertical(&self) -> (vertical: bool)
        ensures
            vertical == self@.vertical,
    {
        self.vertical
    }

    /// Sets the writing mode.
    pub fn set_vertical(&mut self, vertical: bool)
        ensures
            final(self)@ == old(self)@.with_vertical(vertical),
    {
        self.vertical = vertical;
    }

    /// The value that `code` stands for, if any.
    pub fn lookup_code(&self, code: u32) -> (value: Option<u32>)
        ensures
            value == self@.lookup(code),
    {
        match self.map.get(&code) {
            Some(value) => Some(*value),
            None => {
                if self.is_identity_cmap() && code <= 0xFFFF {
                    Some(code)
                } else {
                    None
                }
            },
        }
    }

    /// Adds the codespace range `(low, high)` for codes of `n` bytes.  An `n`
    /// outside 1 to 4 is ignored.
    pub fn add_codespace_range(&mut self, n: usize, low: u32, high: u32)
        ensures
            final(self)@ == old(self)@.add_codespace_range(n as int, low, high),
    {
        if n > 0 && n <= 4 {
            self.codespace_ranges[n - 1].push((low, high));
            assert(final(self)@.codespace =~= old(self)@.add_codespace_range(
                n as int,
                low,
                high,
            ).codespace);
        }
    }

    /// Maps the codes `low..=high` to consecutive values from `dst_low` on.
    /// A span over `MAX_MAP_RANGE` is refused and leaves the map as it was.
    pub fn map_cid_range(&mut self, low: u32, high: u32, dst_low: u32) -> (done: Option<()>)
        ensures
            done is Some <==> high - low <= MAX_MAP_RANGE,
            done is Some ==> Some(final(self)@) == old(self)@.map_cid_range(low, high, dst_low),
            done is None ==> final(self)@ == old(self)@,
    {
        if high < low {
            assert(self@.map =~= self@.map_cid_range(low, high, dst_low)->0.map);
            return Some(());
        }
        let span = high - low;
        if span > MAX_MAP_RANGE {
            return None;
        }
        let mut i: u32 = 0;
        assert(self.map@ =~= cid_mapped(old(self)@.map, low, i as int, dst_low));
        while i <= span
            invariant
                low <= high,
                span == high - low,
                span <= MAX_MAP_RANGE,
                i <= span + 1,
                self.name == old(self).name,
                self.vertical == old(self).vertical,
                self.codespace_ranges == old(self).codespace_ranges,
                self.map@ == cid_mapped(old(self)@.map, low, i as int, dst_low),
            decreases span + 1 - i,
        {
            self.map.insert(low + i, dst_low.wrapping_add(i));
            i += 1;
            assert(self.map@ =~= cid_mapped(old(self)@.map, low, i as int, dst_low));
        }
        assert(self@.map =~= old(self)@.map_cid_range(low, high, dst_low)->0.map);
        Some(())
    }

    /// Maps the codes `low..=high` to the first characters of the
    /// destination strings that follow one another from `dst_low` on.  A span
    /// over `MAX_MAP_RANGE` is refused and leaves the map as it was.
    pub fn map_bf_range(&mut self, low: u32, high: u32, dst_low: Vec<u8>) -> (done: Option<()>)
        ensures
            done is Some <==> high - low <= MAX_MAP_RANGE,
            done is Some ==> Some(final(self)@) == old(self)@.map_bf_range(low, high, dst_low@),
            done is None ==> final(self)@ == old(self)@,
    {
        if high < low {
            assert(self@.map =~= self@.map_bf_range(low, high, dst_low@)->0.map);
            return Some(());
        }
        let span = high - low;
        if span > MAX_MAP_RANGE {
            return None;
        }
        let mut current = dst_low;
        let mut i: u32 = 0;
        assert(self.map@ =~= bf_mapped(old(self)@.map, low, i as int, dst_low@));
        while i <= span
            invariant
                low <= high,
                span == high - low,
                span <= MAX_MAP_RANGE,
                i <= span + 1,
                current@ == bf_advance(dst_low@, i as nat),
                self.name == old(self).name,
                self.vertical == old(self).vertical,
                self.codespace_ranges == old(self).codespace_ranges,
                self.map@ == bf_mapped(old(self)@.map, low, i as int, dst_low@),
            decreases span + 1 - i,
        {
            self.map.insert(low + i, bf_string_char(current.as_slice()));
            bf_increment(&mut current);
            i += 1;
            assert(self.map@ =~= bf_mapped(old(self)@.map, low, i as int, dst_low@));
        }
        assert(self@.map =~= old(self)@.map_bf_range(low, high, dst_low@)->0.map);
        Some(())
    }

    /// Maps the codes from `low` on to the values of `array` in turn, up to
    /// `high` and to the end of the array.  A span over `MAX_MAP_RANGE` is
    /// refused and leaves the map as it was.
    pub fn map_bf_range_to_array(&mut self, low: u32, high: u32, array: Vec<u32>) -> (done: Option<
        (),
    >)
        ensures
            done is Some <==> high - low <= MAX_MAP_RANGE,
            done is Some ==> Some(final(self)@) == old(self)@.map_bf_range_to_array(
                low,
                high,
                array@,
            ),
            done is None ==> final(self)@ == old(self)@,
    {
        if high < low {
            assert(self@.map =~= self@.map_bf_range_to_array(low, high, array@)->0.map);
            return Some(());
        }
        let span = high - low;
        if span > MAX_MAP_RANGE {
            return None;
        }
        let mut i: u32 = 0;
        assert(self.map@ =~= array_mapped(old(self)@.map, low, i as int, array@));
        while i <= span && (i as usize) < array.len()
            invariant
                low <= high,
                span == high - low,
                span <= MAX_MAP_RANGE,
                i <= span + 1,
                i <= array.len(),
                self.name == old(self).name,
                self.vertical == old(self).vertical,
                self.codespace_ranges == old(self).codespace_ranges,
                self.map@ == array_mapped(old(self)@.map, low, i as int, array@),
            decreases span + 1 - i,
        {
            self.map.insert(low + i, array[i as usize]);
            i += 1;
            assert(self.map@ =~= array_mapped(old(self)@.map, low, i as int, array@));
        }
        assert(self@.map =~= old(self)@.map_bf_range_to_array(low, high, array@)->0.map);
        Some(())
    }

    /// Maps `src` to `dst`.
    pub fn map_one(&mut self, src: u32, dst: u32)
        ensures
            final(self)@ == old(self)@.map_one(src, dst),
    {
        self.map.insert(src, dst);
    }

    /// Whether this is an identity map.
    pub fn is_identity_cmap(&self) -> (identity: bool)
        ensures
            identity == self@.is_identity(),
    {
        let named = bytes_are(self.name.as_slice(), "Identity-H") || bytes_are(
            self.name.as_slice(),
            "Identity-V",
        );
        proof {
            vstd::set_lib::lemma_set_empty_equivalency_len(self.map@.dom());
        }
        named && self.map.is_empty()
    }

    /// Reads one input code at `offset` and tells how many bytes it takes.
    ///
    /// The code grows byte by byte, up to four bytes and to the end of
    /// `bytes`.  After each byte the codespace ranges of that length are
    /// tried in the order in which they were added, and the first that holds
    /// the code ends the reading.  Where none does, or `offset` is past the
    /// last byte, the answer is `(0, 1)`.
    pub fn read_code(&self, bytes: &[u8], offset: usize) -> (read: (u32, usize))
        ensures
            read.0 == self@.read_code(bytes@, offset as int).0,
            read.1 == self@.read_code(bytes@, offset as int).1,
    {
        if offset >= bytes.len() {
            return (0, 1);
        }
        let left = bytes.len() - offset;
        let mut code: u32 = 0;
        let mut n: usize = 0;
        assert(bytes@.subrange(offset as int, offset + n) =~= Seq::<u8>::empty());
        while n < 4 && n < left
            invariant
                n <= 4,
                n <= left,
                left == bytes.len() - offset,
                offset < bytes.len(),
                code == CMapView::code_at(bytes@, offset as int, n as int),
                self@.read_code(bytes@, offset as int) == self@.read_code_from(
                    bytes@,
                    offset as int,
                    n + 1,
                ),
            decreases 4 - n,
        {
            proof {
                let seen = bytes@.subrange(offset as int, offset + n);
                lemma_pack_push(seen, bytes@[offset + n]);
                assert(bytes@.subrange(offset as int, offset + n + 1) =~= seen.push(
                    bytes@[offset + n],
                ));
            }
            code = shift_in(code, bytes[offset + n]);
            let ranges = &self.codespace_ranges[n];
            assert(ranges@ == self@.ranges(n + 1));
            let mut j: usize = 0;
            while j < ranges.len()
                invariant
                    n < 4,
                    offset + n < bytes.len(),
                    j <= ranges.len(),
                    ranges@ == self@.ranges(n + 1),
                    code == CMapView::code_at(bytes@, offset as int, n + 1),
                    self@.read_code(bytes@, offset as int) == self@.read_code_from(
                        bytes@,
                        offset as int,
                        n + 1,
                    ),
                    forall|k: int| 0 <= k < j ==> !in_range(#[trigger] ranges@[k], code),
                decreases ranges.len() - j,
            {
                let (low, high) = ranges[j];
                if code >= low && code <= high {
                    assert(in_range(self@.ranges(n + 1)[j as int], code));
                    return (code, n + 1);
                }
                j += 1;
            }
            assert(!self@.claims(n + 1, code));
            n += 1;
        }
        (0, 1)
    }
}

} // verus!
