//! Assigns dense indices to the locations of a problem and finds them again.

use vstd::prelude::*;
use crate::assoc::{assoc, keys_of, lemma_assoc_get, lemma_assoc_insert, lemma_assoc_len, lemma_assoc_update};
use crate::problem::{Problem, problem_locations};

verus! {

/// Kind of a symbolic location.
#[derive(Clone, Copy, Debug, PartialEq, Eq, Structural, Hash, PartialOrd, Ord)]
pub enum CustomLocationType {
    /// A location whose place is not known.
    Unknown,
}

/// A location as a problem gives it. A coordinate is held as the bit
/// patterns of its latitude and longitude, so that two coordinates are the
/// same location where their bits agree.
#[derive(Clone, Copy, Debug, PartialEq, Eq, Structural, Hash, PartialOrd, Ord)]
pub enum Location {
    /// A geographic coordinate.
    Coordinate { lat: u64, lng: u64 },
    /// An index into a routing matrix.
    Reference { index: usize },
    /// A symbolic location.
    Custom { kind: CustomLocationType },
}

/// Flag of an index which has seen a coordinate.
pub const HAS_COORDINATES: u8 = 1;

/// Flag of an index which has seen a matrix reference.
pub const HAS_INDICES: u8 = 2;

/// Flag of an index which has seen a symbolic location.
pub const HAS_CUSTOM: u8 = 4;

/// What a coordinate index knows.
pub struct IndexModel {
    /// The index of each indexed location.
    pub direct: Map<Location, usize>,
    /// The location last indexed under each index.
    pub reverse: Map<usize, Location>,
    /// The symbolic locations, in the order in which they were seen.
    pub custom: Seq<Location>,
    /// The number of indexed locations less one when the indexing was
    /// closed, and zero for none.
    pub max_matrix_index: usize,
    /// The largest index which a matrix reference has brought.
    pub max_reference: Option<usize>,
    /// The first index of the range of the symbolic locations.
    pub special_start: usize,
    /// Whether a coordinate was seen.
    pub has_coordinates: bool,
    /// Whether a matrix reference was seen.
    pub has_indices: bool,
    /// Whether a symbolic location was seen.
    pub has_custom: bool,
}

/// The index without any location.
pub open spec fn empty_model() -> IndexModel {
    IndexModel {
        direct: Map::empty(),
        reverse: Map::empty(),
        custom: Seq::empty(),
        max_matrix_index: 0,
        max_reference: None,
        special_start: 0,
        has_coordinates: false,
        has_indices: false,
        has_custom: false,
    }
}

/// The model with one more entry in both directions.
pub open spec fn with_entry(m: IndexModel, location: Location, value: usize) -> IndexModel {
    IndexModel { direct: m.direct.insert(location, value), reverse: m.reverse.insert(value, location), ..m }
}

/// The larger of the largest reference so far and the index.
pub open spec fn with_reference(largest: Option<usize>, index: usize) -> Option<usize> {
    match largest {
        Some(known) => if known >= index {
            Some(known)
        } else {
            Some(index)
        },
        None => Some(index),
    }
}

/// The model after a location is added. A location which is indexed already
/// changes nothing. A coordinate gets the next free index, a reference its
/// own index, and a symbolic location is set aside without an index.
pub open spec fn add_spec(m: IndexModel, location: Location) -> IndexModel {
    if m.direct.contains_key(location) {
        m
    } else {
        match location {
            Location::Coordinate { .. } => with_entry(
                IndexModel { has_coordinates: true, ..m },
                location,
                m.direct.len() as usize,
            ),
            Location::Reference { index } => with_entry(
                IndexModel { has_indices: true, max_reference: with_reference(m.max_reference, index), ..m },
                location,
                index,
            ),
            Location::Custom { .. } => IndexModel {
                custom: if m.custom.contains(location) {
                    m.custom
                } else {
                    m.custom.push(location)
                },
                has_custom: true,
                ..m
            },
        }
    }
}

/// The model after the locations are added one after the other.
pub open spec fn add_all(m: IndexModel, locations: Seq<Location>) -> IndexModel
    decreases locations.len(),
{
    if locations.len() == 0 {
        m
    } else {
        add_spec(add_all(m, locations.drop_last()), locations.last())
    }
}

/// The side of a routing matrix over the indexed locations: their number,
/// and one for none.
pub open spec fn matrix_side(m: IndexModel) -> int {
    if m.direct.len() > 1 {
        m.direct.len() as int
    } else {
        1
    }
}

/// The first index which is neither a cell of a routing matrix over the
/// indexed locations nor the index of a matrix reference.
pub open spec fn special_start_of(m: IndexModel) -> int {
    let square = matrix_side(m) * matrix_side(m);
    let after = match m.max_reference {
        Some(largest) => largest + 1,
        None => 0,
    };
    if square >= after {
        square
    } else {
        after
    }
}

/// Whether the range of the symbolic locations fits into the indices.
pub open spec fn fits(m: IndexModel) -> bool {
    special_start_of(m) + m.custom.len() <= usize::MAX
}

/// The model after the first `count` symbolic locations got the indices from
/// `start` on.
pub open spec fn promote_upto(m: IndexModel, start: nat, count: nat) -> IndexModel
    decreases count,
{
    if count == 0 {
        m
    } else {
        with_entry(
            promote_upto(m, start, (count - 1) as nat),
            m.custom[count - 1],
            (start + count - 1) as usize,
        )
    }
}

/// The model after the indexing is closed: the largest matrix index is fixed,
/// and the symbolic locations get the indices from the start of their range
/// on, in the order in which they were seen.
pub open spec fn promote(m: IndexModel) -> IndexModel {
    let sized = IndexModel {
        max_matrix_index: (matrix_side(m) - 1) as usize,
        special_start: special_start_of(m) as usize,
        ..m
    };
    promote_upto(sized, special_start_of(m) as nat, m.custom.len())
}

/// What holds of every index: only symbolic locations are set aside, and
/// there is one such location; a symbolic location which is indexed was set
/// aside; the index of a coordinate is below the number of indexed
/// locations, and that of a reference is the reference's own; and each kind
/// of location which is indexed or set aside has been noted as seen.
pub open spec fn consistent(m: IndexModel) -> bool {
    &&& m.direct.dom().finite()
    &&& m.custom.no_duplicates()
    &&& m.custom.len() <= 1
    &&& forall|i: int| 0 <= i < m.custom.len() ==> (#[trigger] m.custom[i]) is Custom
    &&& m.has_custom <==> m.custom.len() > 0
    &&& forall|l: Location| #[trigger]
        m.direct.contains_key(l) ==> match l {
            Location::Coordinate { .. } => m.has_coordinates && m.direct[l] < m.direct.len(),
            Location::Reference { index } => m.has_indices && m.direct[l] == index && m.max_reference is Some
                && index <= m.max_reference.unwrap(),
            Location::Custom { .. } => m.custom.contains(l),
        }
}

/// Whether the symbolic locations are apart from the others: their indices
/// lie in their range, which begins above the largest matrix index, and the
/// index of every other location lies below that range.
pub open spec fn separated(m: IndexModel) -> bool {
    &&& m.max_matrix_index < m.special_start
    &&& m.special_start + m.custom.len() <= usize::MAX
    &&& forall|l: Location| #[trigger]
        m.direct.contains_key(l) ==> if l is Custom {
            m.special_start <= m.direct[l] < m.special_start + m.custom.len()
        } else {
            m.direct[l] < m.special_start
        }
}

/// Whether the location is indexed or, being symbolic, set aside.
pub open spec fn seen(m: IndexModel, location: Location) -> bool {
    if location is Custom {
        m.custom.contains(location)
    } else {
        m.direct.contains_key(location)
    }
}

/// Strictly ascending pairs, by their first component.
pub open spec fn ascending(entries: Seq<(usize, Location)>) -> bool {
    forall|i: int, j: int| 0 <= i < j < entries.len() ==> entries[i].0 < entries[j].0
}

/// Keeps track of the mapping between locations and indices.
pub struct CoordIndex {
    direct_index: Vec<(Location, usize)>,
    reverse_index: Vec<(usize, Location)>,
    custom_locations: Vec<Location>,
    max_matrix_index: usize,
    max_reference: Option<usize>,
    special_start: usize,
    flags: u8,
}

impl CoordIndex {
    /// What the index knows.
    pub closed spec fn view(&self) -> IndexModel {
        IndexModel {
            direct: assoc(self.direct_index@),
            reverse: assoc(self.reverse_index@),
            custom: self.custom_locations@,
            max_matrix_index: self.max_matrix_index,
            max_reference: self.max_reference,
            special_start: self.special_start,
            has_coordinates: self.flags & HAS_COORDINATES > 0,
            has_indices: self.flags & HAS_INDICES > 0,
            has_custom: self.flags & HAS_CUSTOM > 0,
        }
    }

    /// The indexed pairs of index and location, ascending by index.
    pub closed spec fn entries(&self) -> Seq<(usize, Location)> {
        self.reverse_index@
    }

    /// No location and no index is kept twice, and the indices ascend.
    pub closed spec fn kept_well(&self) -> bool {
        &&& keys_of(self.direct_index@).no_duplicates()
        &&& ascending(self.reverse_index@)
    }

    /// The index is kept well, and what it knows is consistent.
    pub open spec fn wf(&self) -> bool {
        self.kept_well() && consistent(self@)
    }

    /// The number of indexed locations.
    pub closed spec fn size(&self) -> nat {
        self.direct_index@.len()
    }

    /// What holds of the model of an index which is kept well.
    pub proof fn lemma_wf(&self)
        requires
            self.kept_well(),
        ensures
            self@.direct.dom().finite(),
            self@.direct.len() == self.size(),
            self.size() <= usize::MAX,
            self@.reverse.dom().finite(),
            self@.reverse.len() == self.entries().len(),
            ascending(self.entries()),
            self@.reverse == assoc(self.entries()),
    {
        assert(self.direct_index@.len() == self.direct_index.len());
        lemma_assoc_len(self.direct_index@);
        lemma_ascending_distinct(self.reverse_index@);
        lemma_assoc_len(self.reverse_index@);
    }

    /// Where the numbers below a count are all indices in use, the listing
    /// by ascending index begins with them: the entry at each position below
    /// the count has the position as its index.
    pub proof fn lemma_entries_positions(&self, count: nat)
        requires
            self.wf(),
            count <= usize::MAX,
            forall|k: usize| k < count ==> self@.reverse.contains_key(k),
        ensures
            count <= self.entries().len(),
            forall|i: int| 0 <= i < count ==> (#[trigger] self.entries()[i]).0 == i,
        decreases count,
    {
        if count > 0 {
            self.lemma_entries_positions((count - 1) as nat);
            let entries = self.reverse_index@;
            let keys = keys_of(entries);
            let k = (count - 1) as usize;
            assert(self@.reverse.contains_key(k));
            let p = keys.index_of(k);
            assert(entries[p].0 == k);
            if p < count - 1 {
                assert(entries[p].0 == p);
            }
            if p > count - 1 {
                assert(entries[count - 1].0 < entries[p].0);
                if count >= 2 {
                    assert(entries[count - 2].0 < entries[count - 1].0);
                }
            }
        }
    }

    /// An index without locations.
    fn empty() -> (index: CoordIndex)
        ensures
            index.wf(),
            index@ == empty_model(),
            index.size() == 0,
    {
        let index = CoordIndex {
            direct_index: Vec::new(),
            reverse_index: Vec::new(),
            custom_locations: Vec::new(),
            max_matrix_index: 0,
            max_reference: None,
            special_start: 0,
            flags: 0,
        };
        proof {
            assert(index@.direct =~= Map::empty());
            assert(index@.reverse =~= Map::empty());
            assert(0u8 & 1 == 0 && 0u8 & 2 == 0 && 0u8 & 4 == 0) by (bit_vector);
        }
        index
    }

    /// Indexes the locations of a problem in the order in which the problem
    /// names them, and then gives the symbolic locations their indices,
    /// which no other location of the problem has.
    pub fn new(problem: &Problem) -> (index: CoordIndex)
        requires
            fits(add_all(empty_model(), problem_locations(*problem))),
        ensures
            index.wf(),
            index@ == promote(add_all(empty_model(), problem_locations(*problem))),
            separated(index@),
            forall|k: int|
                0 <= k < problem_locations(*problem).len() ==> index@.direct.contains_key(
                    #[trigger] problem_locations(*problem)[k],
                ),
    {
        let locations = problem.locations();
        CoordIndex::from_locations(&locations)
    }

    /// Indexes the locations in their order, and then gives the symbolic
    /// locations their indices, which no other of the locations has.
    pub fn from_locations(locations: &Vec<Location>) -> (index: CoordIndex)
        requires
            fits(add_all(empty_model(), locations@)),
        ensures
            index.wf(),
            index@ == promote(add_all(empty_model(), locations@)),
            separated(index@),
            forall|k: int| 0 <= k < locations@.len() ==> index@.direct.contains_key(#[trigger] locations@[k]),
    {
        CoordIndex::try_from_locations(locations).unwrap()
    }

    /// Indexes the locations as `from_locations` does, unless the range of
    /// the symbolic locations does not fit into the indices.
    pub fn try_from_locations(locations: &Vec<Location>) -> (r: Option<CoordIndex>)
        ensures
            r is Some <==> fits(add_all(empty_model(), locations@)),
            r is Some ==> {
                let index = r.unwrap();
                &&& index.wf()
                &&& index@ == promote(add_all(empty_model(), locations@))
                &&& separated(index@)
                &&& forall|k: int| 0 <= k < locations@.len() ==> index@.direct.contains_key(#[trigger] locations@[k])
            },
    {
        let mut index = CoordIndex::empty();
        let n = locations.len();
        let mut i: usize = 0;
        while i < n
            invariant
                n == locations.len(),
                i <= n,
                index.wf(),
                index@ == add_all(empty_model(), locations@.take(i as int)),
                forall|l: Location| #[trigger] index@.direct.contains_key(l) ==> !(l is Custom),
                forall|k: int| 0 <= k < i ==> seen(index@, #[trigger] locations@[k]),
            decreases n - i,
        {
            let ghost before = index@;
            index.add(&locations[i]);
            proof {
                assert(locations@.take(i + 1).drop_last() =~= locations@.take(i as int));
                assert forall|k: int| 0 <= k < i + 1 implies seen(index@, #[trigger] locations@[k]) by {
                    if k < i {
                        assert(seen(before, locations@[k]));
                        if locations@[k] is Custom {
                            let w = before.custom.index_of(locations@[k]);
                            assert(index@.custom[w] == locations@[k]);
                        }
                    } else {
                        if locations@[k] is Custom && !before.custom.contains(locations@[k]) {
                            assert(index@.custom.last() == locations@[k]);
                        }
                    }
                }
            }
            i += 1;
        }
        proof {
            assert(locations@.take(n as int) =~= locations@);
            index.lemma_wf();
        }
        let ghost added = index@;
        let size = index.direct_index.len();
        let count = index.custom_locations.len();
        let side = if size > 1 { size } else { 1 };
        let square = match side.checked_mul(side) {
            Some(square) => square,
            None => {
                return None;
            },
        };
        let after = match index.max_reference {
            Some(largest) => match largest.checked_add(1) {
                Some(after) => after,
                None => {
                    return None;
                },
            },
            None => 0,
        };
        let start = if square >= after { square } else { after };
        if start.checked_add(count).is_none() {
            return None;
        }
        proof {
            assert(side <= side * side) by (nonlinear_arith)
                requires
                    side >= 1,
            ;
        }
        index.max_matrix_index = side - 1;
        index.special_start = start;
        let ghost sized = index@;
        let mut offset: usize = 0;
        while offset < count
            invariant
                offset <= count,
                count == index.custom_locations.len(),
                n == locations.len(),
                start + count <= usize::MAX,
                size <= start,
                index.kept_well(),
                consistent(index@),
                consistent(sized),
                index@ == promote_upto(sized, start as nat, offset as nat),
                index@.custom == sized.custom,
                index@.max_matrix_index == sized.max_matrix_index,
                index@.special_start == start,
                forall|l: Location| #[trigger]
                    index@.direct.contains_key(l) ==> if l is Custom {
                        start <= index@.direct[l] < start + offset
                    } else {
                        index@.direct[l] < start
                    },
                forall|k: int|
                    0 <= k < n && !((#[trigger] locations@[k]) is Custom) ==> index@.direct.contains_key(
                        locations@[k],
                    ),
                forall|j: int| 0 <= j < offset ==> index@.direct.contains_key(#[trigger] sized.custom[j]),
            decreases count - offset,
        {
            let location = index.custom_locations[offset];
            let value = start + offset;
            let ghost before = index@;
            proof {
                index.lemma_wf();
                assert(sized.custom[offset as int] is Custom);
            }
            index.put_direct(location, value);
            index.put_reverse(value, location);
            proof {
                index.lemma_wf();
                assert(index@.custom[offset as int] == location);
                assert forall|j: int| 0 <= j < offset + 1 implies index@.direct.contains_key(
                    #[trigger] sized.custom[j],
                ) by {
                    if j < offset {
                        assert(before.direct.contains_key(sized.custom[j]));
                    }
                }
            }
            offset += 1;
        }
        proof {
            assert forall|k: int| 0 <= k < n implies index@.direct.contains_key(#[trigger] locations@[k]) by {
                if locations@[k] is Custom {
                    assert(seen(added, locations@[k]));
                    let j = added.custom.index_of(locations@[k]);
                    assert(index@.direct.contains_key(sized.custom[j]));
                }
            }
        }
        Some(index)
    }

    /// Position of the location among the indexed pairs.
    fn find(&self, location: &Location) -> (r: Option<usize>)
        ensures
            r is Some <==> keys_of(self.direct_index@).contains(*location),
            r is Some ==> r.unwrap() < self.direct_index@.len() && self.direct_index@[r.unwrap() as int].0
                == *location,
    {
        let n = self.direct_index.len();
        let mut i: usize = 0;
        while i < n
            invariant
                n == self.direct_index.len(),
                i <= n,
                forall|k: int| 0 <= k < i ==> keys_of(self.direct_index@)[k] != *location,
            decreases n - i,
        {
            if self.direct_index[i].0 == *location {
                assert(keys_of(self.direct_index@)[i as int] == *location);
                return Some(i);
            }
            i += 1;
        }
        None
    }

    /// Binds the location to the index, whatever it was bound to.
    fn put_direct(&mut self, location: Location, value: usize)
        requires
            old(self).kept_well(),
        ensures
            final(self).kept_well(),
            final(self)@ == (IndexModel { direct: old(self)@.direct.insert(location, value), ..old(self)@ }),
            final(self).size() == old(self).size() + (if old(self)@.direct.contains_key(location) {
                0int
            } else {
                1int
            }),
    {
        match self.find(&location) {
            Some(at) => {
                proof {
                    lemma_assoc_update(self.direct_index@, at as int, value);
                }
                self.direct_index.set(at, (location, value));
            },
            None => {
                proof {
                    lemma_assoc_insert(self.direct_index@, self.direct_index@.len() as int, location, value);
                    assert(self.direct_index@.insert(self.direct_index@.len() as int, (location, value))
                        =~= self.direct_index@.push((location, value)));
                }
                self.direct_index.push((location, value));
            },
        }
    }

    /// Binds the index to the location, whatever it was bound to.
    fn put_reverse(&mut self, value: usize, location: Location)
        requires
            old(self).kept_well(),
        ensures
            final(self).kept_well(),
            final(self)@ == (IndexModel { reverse: old(self)@.reverse.insert(value, location), ..old(self)@ }),
            final(self).size() == old(self).size(),
    {
        let n = self.reverse_index.len();
        let mut pos: usize = 0;
        while pos < n && self.reverse_index[pos].0 < value
            invariant
                n == self.reverse_index.len(),
                pos <= n,
                self.reverse_index@ == old(self).reverse_index@,
                forall|k: int| 0 <= k < pos ==> self.reverse_index@[k].0 < value,
            decreases n - pos,
        {
            pos += 1;
        }
        let ghost before = self.reverse_index@;
        proof {
            lemma_ascending_distinct(before);
        }
        if pos < n && self.reverse_index[pos].0 == value {
            proof {
                lemma_assoc_update(before, pos as int, location);
            }
            self.reverse_index.set(pos, (value, location));
        } else {
            proof {
                assert forall|k: int| 0 <= k < before.len() implies keys_of(before)[k] != value by {
                    if k >= pos {
                        assert(before[pos as int].0 <= before[k].0);
                    }
                }
                lemma_assoc_insert(before, pos as int, value, location);
            }
            self.reverse_index.insert(pos, (value, location));
            proof {
                let after = self.reverse_index@;
                assert forall|i: int, j: int| 0 <= i < j < after.len() implies after[i].0 < after[j].0 by {
                    let a = if i < pos { i } else { i - 1 };
                    let b = if j < pos { j } else { j - 1 };
                    if i != pos && j != pos {
                        assert(after[i] == before[a] && after[j] == before[b]);
                    } else if i == pos {
                        assert(after[j] == before[b]);
                        assert(before[pos as int].0 <= before[b].0);
                    } else {
                        assert(after[i] == before[a]);
                    }
                }
            }
        }
    }

    /// Adds a location to the index.
    pub fn add(&mut self, location: &Location)
        requires
            old(self).wf(),
        ensures
            final(self).wf(),
            final(self)@ == add_spec(old(self)@, *location),
    {
        proof {
            self.lemma_wf();
            lemma_flags(self.flags);
        }
        if self.find(location).is_none() {
            match *location {
                Location::Coordinate { .. } => {
                    self.flags = self.flags | HAS_COORDINATES;
                    let value = self.direct_index.len();
                    self.put_direct(*location, value);
                    self.put_reverse(value, *location);
                },
                Location::Reference { index } => {
                    self.flags = self.flags | HAS_INDICES;
                    self.max_reference = match self.max_reference {
                        Some(known) => if known >= index {
                            Some(known)
                        } else {
                            Some(index)
                        },
                        None => Some(index),
                    };
                    self.put_direct(*location, index);
                    self.put_reverse(index, *location);
                },
                Location::Custom { .. } => {
                    self.flags = self.flags | HAS_CUSTOM;
                    if !self.is_set_aside(location) {
                        proof {
                            if self.custom_locations@.len() > 0 {
                                assert(self.custom_locations@[0] is Custom);
                                assert(self.custom_locations@[0] == *location);
                            }
                        }
                        self.custom_locations.push(*location);
                    }
                },
            }
            proof {
                self.lemma_wf();
            }
        }
    }

    /// Tells whether the symbolic location was seen.
    fn is_set_aside(&self, location: &Location) -> (r: bool)
        ensures
            r == self.custom_locations@.contains(*location),
    {
        let n = self.custom_locations.len();
        let mut i: usize = 0;
        while i < n
            invariant
                n == self.custom_locations.len(),
                i <= n,
                forall|k: int| 0 <= k < i ==> self.custom_locations@[k] != *location,
            decreases n - i,
        {
            if self.custom_locations[i] == *location {
                return true;
            }
            i += 1;
        }
        false
    }

    /// Gets the index of a location.
    pub fn get_by_loc(&self, location: &Location) -> (r: Option<usize>)
        requires
            self.wf(),
        ensures
            r == (if self@.direct.contains_key(*location) {
                Some(self@.direct[*location])
            } else {
                None
            }),
    {
        match self.find(location) {
            Some(at) => {
                proof {
                    lemma_assoc_get(self.direct_index@, at as int);
                }
                Some(self.direct_index[at].1)
            },
            None => None,
        }
    }

    /// Gets the location of an index.
    pub fn get_by_idx(&self, index: usize) -> (r: Option<Location>)
        requires
            self.wf(),
        ensures
            r == (if self@.reverse.contains_key(index) {
                Some(self@.reverse[index])
            } else {
                None
            }),
    {
        let n = self.reverse_index.len();
        let mut i: usize = 0;
        proof {
            lemma_ascending_distinct(self.reverse_index@);
        }
        while i < n
            invariant
                n == self.reverse_index.len(),
                i <= n,
                keys_of(self.reverse_index@).no_duplicates(),
                forall|k: int| 0 <= k < i ==> keys_of(self.reverse_index@)[k] != index,
            decreases n - i,
        {
            if self.reverse_index[i].0 == index {
                proof {
                    lemma_assoc_get(self.reverse_index@, i as int);
                }
                return Some(self.reverse_index[i].1);
            }
            i += 1;
        }
        None
    }

    /// The indexed locations, ascending by index.
    pub fn unique(&self) -> (r: Vec<Location>)
        requires
            self.wf(),
        ensures
            r@ == self.entries().map_values(|e: (usize, Location)| e.1),
            ascending(self.entries()),
            self@.reverse == assoc(self.entries()),
            r@.len() == self@.reverse.len(),
            forall|i: int|
                0 <= i < r@.len() ==> self@.reverse.contains_key((#[trigger] self.entries()[i]).0) && r@[i]
                    == self@.reverse[self.entries()[i].0],
    {
        let n = self.reverse_index.len();
        let mut locations: Vec<Location> = Vec::new();
        let mut i: usize = 0;
        proof {
            self.lemma_wf();
        }
        while i < n
            invariant
                n == self.reverse_index.len(),
                i <= n,
                locations@ == self.reverse_index@.take(i as int).map_values(|e: (usize, Location)| e.1),
            decreases n - i,
        {
            locations.push(self.reverse_index[i].1);
            proof {
                assert(locations@ =~= self.reverse_index@.take(i + 1).map_values(|e: (usize, Location)| e.1));
            }
            i += 1;
        }
        proof {
            assert(self.reverse_index@.take(n as int) =~= self.reverse_index@);
            assert forall|k: int| 0 <= k < locations@.len() implies self@.reverse.contains_key(
                (#[trigger] self.entries()[k]).0,
            ) && locations@[k] == self@.reverse[self.entries()[k].0] by {
                lemma_ascending_distinct(self.reverse_index@);
                lemma_assoc_get(self.reverse_index@, k);
            }
        }
        locations
    }

    /// The largest index of a routing matrix.
    pub fn max_matrix_index(&self) -> (r: usize)
        ensures
            r == self@.max_matrix_index,
    {
        self.max_matrix_index
    }

    /// The number of symbolic locations.
    pub fn custom_locations_len(&self) -> (r: usize)
        ensures
            r == self@.custom.len(),
    {
        self.custom_locations.len()
    }

    /// Tells whether the index lies in the range of the symbolic locations.
    pub fn is_special_index(&self, index: usize) -> (r: bool)
        ensures
            r == (self@.special_start <= index < self@.special_start + self@.custom.len()),
    {
        match self.special_start.checked_add(self.custom_locations.len()) {
            Some(end) => self.special_start <= index && index < end,
            None => self.special_start <= index,
        }
    }

    /// Tells whether a coordinate was seen.
    pub fn has_coordinates(&self) -> (r: bool)
        ensures
            r == self@.has_coordinates,
    {
        (self.flags & HAS_COORDINATES) > 0
    }

    /// Tells whether a matrix reference was seen.
    pub fn has_indices(&self) -> (r: bool)
        ensures
            r == self@.has_indices,
    {
        (self.flags & HAS_INDICES) > 0
    }

    /// Tells whether a symbolic location was seen.
    pub fn has_custom(&self) -> (r: bool)
        ensures
            r == self@.has_custom,
    {
        (self.flags & HAS_CUSTOM) > 0
    }
}

/// A flag which is set is found set, and setting one flag leaves the other
/// flags as they are.
proof fn lemma_flags(flags: u8)
    ensures
        (flags | HAS_COORDINATES) & HAS_COORDINATES > 0,
        (flags | HAS_INDICES) & HAS_INDICES > 0,
        (flags | HAS_CUSTOM) & HAS_CUSTOM > 0,
        (flags | HAS_COORDINATES) & HAS_INDICES == flags & HAS_INDICES,
        (flags | HAS_COORDINATES) & HAS_CUSTOM == flags & HAS_CUSTOM,
        (flags | HAS_INDICES) & HAS_COORDINATES == flags & HAS_COORDINATES,
        (flags | HAS_INDICES) & HAS_CUSTOM == flags & HAS_CUSTOM,
        (flags | HAS_CUSTOM) & HAS_COORDINATES == flags & HAS_COORDINATES,
        (flags | HAS_CUSTOM) & HAS_INDICES == flags & HAS_INDICES,
{
    assert((flags | 1) & 1 > 0 && (flags | 2) & 2 > 0 && (flags | 4) & 4 > 0) by (bit_vector);
    assert((flags | 1) & 2 == flags & 2 && (flags | 1) & 4 == flags & 4) by (bit_vector);
    assert((flags | 2) & 1 == flags & 1 && (flags | 2) & 4 == flags & 4) by (bit_vector);
    assert((flags | 4) & 1 == flags & 1 && (flags | 4) & 2 == flags & 2) by (bit_vector);
}

/// Strictly ascending keys are distinct.
pub proof fn lemma_ascending_distinct(entries: Seq<(usize, Location)>)
    requires
        ascending(entries),
    ensures
        keys_of(entries).no_duplicates(),
{
    let keys = keys_of(entries);
    assert forall|i: int, j: int| 0 <= i < keys.len() && 0 <= j < keys.len() && i != j implies keys[i]
        != keys[j] by {
        if i < j {
            assert(entries[i].0 < entries[j].0);
        } else {
            assert(entries[j].0 < entries[i].0);
        }
    }
}

/// There is one symbolic location.
pub proof fn lemma_one_symbolic(left: Location, right: Location)
    requires
        left is Custom,
        right is Custom,
    ensures
        left == right,
{
    match (left, right) {
        (
            Location::Custom { kind: CustomLocationType::Unknown },
            Location::Custom { kind: CustomLocationType::Unknown },
        ) => {},
        _ => {},
    }
}

/// Whether the indices are the numbers below the number of indexed
/// locations, each the index of one location, which is found under it.
pub open spec fn dense(m: IndexModel) -> bool {
    &&& m.direct.dom().finite()
    &&& m.reverse.dom().finite()
    &&& m.reverse.len() == m.direct.len()
    &&& forall|k: usize| #[trigger] m.reverse.contains_key(k) <==> k < m.direct.len()
    &&& forall|l: Location| #[trigger]
        m.direct.contains_key(l) ==> m.direct[l] < m.direct.len() && m.reverse[m.direct[l]] == l
    &&& forall|k: usize| k < m.direct.len() ==> m.direct.contains_key(#[trigger] m.reverse[k]) && m.direct[m.reverse[k]] == k
}

/// The coordinates among the locations.
pub open spec fn coordinates_of(locations: Seq<Location>) -> Set<Location> {
    Set::new(|l: Location| locations.contains(l) && l is Coordinate)
}

/// Coordinates are numbered without gaps: where the locations hold no
/// reference, the indexed locations are the distinct coordinates, their
/// indices are the numbers below their count, each location is found under
/// its index, and at most one symbolic location is set aside.
pub proof fn lemma_coordinates_dense(locations: Seq<Location>)
    requires
        locations.len() <= usize::MAX,
        forall|k: int| 0 <= k < locations.len() ==> !((#[trigger] locations[k]) is Reference),
    ensures
        dense(add_all(empty_model(), locations)),
        add_all(empty_model(), locations).direct.len() <= locations.len(),
        add_all(empty_model(), locations).direct.dom() == coordinates_of(locations),
        add_all(empty_model(), locations).max_reference is None,
        add_all(empty_model(), locations).custom.len() <= 1,
        forall|i: int|
            0 <= i < add_all(empty_model(), locations).custom.len() ==> (#[trigger] add_all(
                empty_model(),
                locations,
            ).custom[i]) is Custom && locations.contains(add_all(empty_model(), locations).custom[i]),
        forall|k: int|
            0 <= k < locations.len() && (#[trigger] locations[k]) is Custom ==> add_all(
                empty_model(),
                locations,
            ).custom.len() == 1,
    decreases locations.len(),
{
    broadcast use vstd::set::group_set_axioms, vstd::map::group_map_axioms;

    let m = add_all(empty_model(), locations);
    if locations.len() == 0 {
        assert(m.direct.dom() =~= coordinates_of(locations));
    } else {
        let front = locations.drop_last();
        let last = locations.last();
        lemma_coordinates_dense(front);
        let p = add_all(empty_model(), front);
        assert forall|l: Location| locations.contains(l) <==> front.contains(l) || l == last by {
            if locations.contains(l) {
                let i = locations.index_of(l);
                if i < front.len() {
                    assert(front[i] == l);
                }
            }
            if front.contains(l) {
                let i = front.index_of(l);
                assert(locations[i] == l);
            }
            if l == last {
                assert(locations[locations.len() - 1] == l);
            }
        }
        if p.direct.contains_key(last) {
            assert(m == p);
        } else if last is Coordinate {
            let value = p.direct.len() as usize;
            assert(!p.reverse.contains_key(value));
            assert(m.direct == p.direct.insert(last, value));
            assert(m.reverse == p.reverse.insert(value, last));
            assert(m.direct.len() == p.direct.len() + 1);
            assert(m.reverse.len() == p.reverse.len() + 1);
        } else {
            assert(last is Custom);
            if p.custom.len() > 0 {
                assert(p.custom[0] is Custom);
                lemma_one_symbolic(p.custom[0], last);
                assert(p.custom.contains(last));
                assert(m.custom == p.custom);
            } else {
                assert(m.custom =~= seq![last]);
            }
            assert forall|i: int| 0 <= i < m.custom.len() implies (#[trigger] m.custom[i]) is Custom
                && locations.contains(m.custom[i]) by {
                lemma_one_symbolic(m.custom[i], last);
            }
        }
        assert(m.direct.dom() =~= coordinates_of(locations));
        assert forall|k: int| 0 <= k < locations.len() && (#[trigger] locations[k]) is Custom implies m.custom.len()
            == 1 by {
            if k < front.len() {
                assert(front[k] is Custom);
            } else {
                assert(!coordinates_of(front).contains(last));
            }
        }
    }
}

/// The index of locations without a reference holds each distinct location
/// once: as many locations are indexed, and as many indices are used, as the
/// locations have distinct values, however often a location occurs. Each
/// location is found again under its index, the coordinates have the indices
/// below their count, and the largest matrix index is their count less one.
pub proof fn lemma_index_counts_distinct(locations: Seq<Location>)
    requires
        locations.len() <= usize::MAX,
        forall|k: int| 0 <= k < locations.len() ==> !((#[trigger] locations[k]) is Reference),
        fits(add_all(empty_model(), locations)),
    ensures
        ({
            let m = promote(add_all(empty_model(), locations));
            let n = coordinates_of(locations).len();
            &&& coordinates_of(locations).finite()
            &&& m.direct.dom() == locations.to_set()
            &&& m.direct.len() == locations.to_set().len()
            &&& m.reverse.len() == locations.to_set().len()
            &&& m.max_matrix_index == (if n > 1 {
                n - 1
            } else {
                0
            })
            &&& forall|l: Location| #[trigger] m.direct.contains_key(l) ==> m.reverse[m.direct[l]] == l
            &&& forall|l: Location| #[trigger] m.direct.contains_key(l) && l is Coordinate ==> m.direct[l] < n
            &&& forall|k: usize| k < n ==> #[trigger] m.reverse.contains_key(k)
            &&& forall|k: usize|
                k < n ==> m.direct.contains_key(#[trigger] m.reverse[k]) && m.direct[m.reverse[k]] == k
        }),
{
    broadcast use vstd::set::group_set_axioms, vstd::map::group_map_axioms;

    lemma_coordinates_dense(locations);
    let p = add_all(empty_model(), locations);
    let start = special_start_of(p);
    let sized = IndexModel { max_matrix_index: (matrix_side(p) - 1) as usize, special_start: start as usize, ..p };
    let m = promote(p);
    let side = matrix_side(p);
    assert(side <= side * side) by (nonlinear_arith)
        requires
            side >= 1,
    ;
    assert(promote_upto(sized, start as nat, 0) == sized);
    if p.custom.len() == 0 {
        assert(m == sized);
        assert forall|l: Location| locations.to_set().contains(l) implies l is Coordinate by {
            let i = locations.index_of(l);
            assert(!(locations[i] is Custom));
        }
        assert(m.direct.dom() =~= locations.to_set());
    } else {
        let c = p.custom[0];
        assert(c is Custom && locations.contains(c));
        assert(promote_upto(sized, start as nat, 1) == with_entry(sized, c, start as usize));
        assert(m == with_entry(sized, c, start as usize));
        assert(!p.direct.contains_key(c));
        assert(!p.reverse.contains_key(start as usize));
        assert(m.direct.len() == p.direct.len() + 1);
        assert(m.reverse.len() == p.reverse.len() + 1);
        assert forall|l: Location| locations.to_set().contains(l) <==> m.direct.contains_key(l) by {
            if l is Custom {
                lemma_one_symbolic(l, c);
            }
        }
        assert(m.direct.dom() =~= locations.to_set());
    }
}

/// The largest matrix index does not depend on the order of the locations:
/// the same locations in another order give the same one.
pub proof fn lemma_max_matrix_index_any_order(left: Seq<Location>, right: Seq<Location>)
    requires
        left.len() <= usize::MAX,
        right.len() <= usize::MAX,
        forall|k: int| 0 <= k < left.len() ==> !((#[trigger] left[k]) is Reference),
        left.to_set() == right.to_set(),
        fits(add_all(empty_model(), left)),
        fits(add_all(empty_model(), right)),
    ensures
        promote(add_all(empty_model(), left)).max_matrix_index == promote(
            add_all(empty_model(), right),
        ).max_matrix_index,
{
    broadcast use vstd::set::group_set_axioms;

    assert forall|k: int| 0 <= k < right.len() implies !((#[trigger] right[k]) is Reference) by {
        assert(right.to_set().contains(right[k]));
        assert(left.contains(right[k]));
        let i = left.index_of(right[k]);
        assert(!(left[i] is Reference));
    }
    assert forall|l: Location| left.contains(l) <==> right.contains(l) by {
        assert(left.to_set().contains(l) == left.contains(l));
        assert(right.to_set().contains(l) == right.contains(l));
    }
    assert(coordinates_of(left) =~= coordinates_of(right));
    lemma_index_counts_distinct(left);
    lemma_index_counts_distinct(right);
}

} // verus!
