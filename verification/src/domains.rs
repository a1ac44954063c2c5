//! Per-cell candidate domains.
//!
//! A domain is one cell's candidate-value cursor: it remembers which value
//! (if any) is currently tried and which values are still left to try.
//! A [`FixedDomain`] holds a single legal value (a given/clue cell); a
//! [`RangeDomain`] holds a contiguous inclusive interval of candidates
//! (a free cell).  [`CellDomain`] is the closed sum of the two kinds, used
//! as the cell type of a grid that mixes clues and free cells.

use vstd::prelude::*;

verus! {

/// Reported when a puzzle is built from malformed raw input.
#[derive(Copy, Clone, Debug, PartialEq, Eq, Structural)]
pub enum ConstructionError {
    /// The raw value grid is not square.
    NotSquare,
    /// A raw value lies outside the puzzle's legal alphabet.
    ValueOutOfRange,
}

/// One cell's candidate-value cursor.
///
/// `spec_min()`/`spec_max()` describe the cell's legal alphabet (an
/// inclusive interval), `spec_value()` the currently tried candidate, and
/// `spec_is_fixed()` whether the cell is a given/clue (its alphabet is a
/// single value).  The stepping protocol (`next`/`has_next`/`reset`) is the
/// same for every kind of domain, which lets a grid drive clue cells and
/// free cells uniformly: a clue simply never has a further candidate.
pub trait Domain: Sized + Copy {
    /// Internal well-formedness: the interval is non-empty and the current
    /// value, when present, lies inside it.
    spec fn inv(&self) -> bool;

    /// The currently assigned candidate, if any.
    spec fn spec_value(&self) -> Option<i8>;

    /// Smallest legal value of this cell.
    spec fn spec_min(&self) -> i8;

    /// Largest legal value of this cell.
    spec fn spec_max(&self) -> i8;

    /// Whether this cell is a given/clue (exactly one legal value).
    spec fn spec_is_fixed(&self) -> bool;

    /// Every well-formed domain keeps its current value inside its legal
    /// interval, and a clue's interval is a single value.
    proof fn lemma_inv(&self)
        requires
            self.inv(),
        ensures
            self.spec_min() <= self.spec_max(),
            self.spec_value() matches Some(v) ==> self.spec_min() <= v <= self.spec_max(),
            self.spec_is_fixed() ==> self.spec_min() == self.spec_max(),
    ;

    /// The currently assigned value, or `None` while unassigned.
    fn value(&self) -> (r: Option<i8>)
        ensures
            r == self.spec_value(),
    ;

    /// Whether this cell is a given/clue.
    fn is_fixed(&self) -> (r: bool)
        ensures
            r == self.spec_is_fixed(),
    ;

    /// Whether a further, not yet tried candidate remains.
    fn has_next(&self) -> (r: bool)
        requires
            self.inv(),
        ensures
            r == (match self.spec_value() {
                None => true,
                Some(v) => v < self.spec_max(),
            }),
    ;

    /// Advance to the next untried candidate: the first call assigns the
    /// smallest value, later calls increment by one while a candidate is
    /// left.  A no-op once the domain is exhausted (always, for a clue).
    fn next(&mut self)
        requires
            old(self).inv(),
        ensures
            final(self).inv(),
            final(self).spec_min() == old(self).spec_min(),
            final(self).spec_max() == old(self).spec_max(),
            final(self).spec_is_fixed() == old(self).spec_is_fixed(),
            final(self).spec_value() == (match old(self).spec_value() {
                None => Some(old(self).spec_min()),
                Some(v) => if v < old(self).spec_max() {
                    Some((v + 1) as i8)
                } else {
                    old(self).spec_value()
                },
            }),
            old(self).spec_value() matches Some(v) && v >= old(self).spec_max()
                ==> *final(self) == *old(self),
    ;

    /// Return the domain to the unassigned state.  A fixed domain has no
    /// search-relevant unassigned state and may stay as it is.
    fn reset(&mut self)
        requires
            old(self).inv(),
        ensures
            final(self).inv(),
            final(self).spec_min() == old(self).spec_min(),
            final(self).spec_max() == old(self).spec_max(),
            final(self).spec_is_fixed() == old(self).spec_is_fixed(),
            !old(self).spec_is_fixed() ==> final(self).spec_value() is None,
            final(self).spec_value() is None || *final(self) == *old(self),
    ;

    /// Whether `value` lies in this cell's legal alphabet.
    fn value_belongs(&self, value: i8) -> (r: bool)
        requires
            self.inv(),
        ensures
            r == (self.spec_min() <= value <= self.spec_max()),
    ;
}

/// A further candidate remains: nothing tried yet, or the current value is
/// still below the top of the interval.
pub open spec fn domain_has_next<D: Domain>(d: &D) -> bool {
    match d.spec_value() {
        None => true,
        Some(v) => v < d.spec_max(),
    }
}

/// How many stepping moves are left in this domain before it is exhausted:
/// the whole interval while unassigned, otherwise the values above the
/// current one.  This is the per-cell "digit" of the termination measure of
/// a grid search.
pub open spec fn domain_slack<D: Domain>(d: &D) -> nat {
    match d.spec_value() {
        None => (d.spec_max() - d.spec_min() + 1) as nat,
        Some(v) => (d.spec_max() - v) as nat,
    }
}

/// The slack of a well-formed domain over `i8` values fits under 257, so it
/// can serve as a digit in a radix-257 encoding.
pub proof fn lemma_slack_bounded<D: Domain>(d: &D)
    requires
        d.inv(),
    ensures
        domain_slack(d) < 257,
{
    d.lemma_inv();
}

/// A domain with exactly one legal value: a given/clue cell.  Its value is
/// assigned from construction on and never changes.
#[derive(Copy, Clone, Debug)]
pub struct FixedDomain {
    pub value: i8,
}

impl FixedDomain {
    /// A clue pinned to `value`.
    pub fn new(value: i8) -> (d: Self)
        ensures
            d == (FixedDomain { value }),
    {
        FixedDomain { value }
    }
}

impl Domain for FixedDomain {
    open spec fn inv(&self) -> bool {
        true
    }

    open spec fn spec_value(&self) -> Option<i8> {
        Some(self.value)
    }

    open spec fn spec_min(&self) -> i8 {
        self.value
    }

    open spec fn spec_max(&self) -> i8 {
        self.value
    }

    open spec fn spec_is_fixed(&self) -> bool {
        true
    }

    proof fn lemma_inv(&self) {
    }

    fn value(&self) -> (r: Option<i8>) {
        Some(self.value)
    }

    fn is_fixed(&self) -> (r: bool) {
        true
    }

    fn has_next(&self) -> (r: bool) {
        false
    }

    fn next(&mut self) {
    }

    fn reset(&mut self) {
    }

    fn value_belongs(&self, value: i8) -> (r: bool) {
        value == self.value
    }
}

/// A domain over a contiguous inclusive interval `[min, max]`: a free cell.
/// `current` is the candidate tried at the moment, `None` while unassigned.
#[derive(Copy, Clone, Debug)]
pub struct RangeDomain {
    pub current: Option<i8>,
    pub min: i8,
    pub max: i8,
}

impl RangeDomain {
    /// An unassigned domain over the non-empty interval `[min, max]`.
    pub fn new(min: i8, max: i8) -> (d: Self)
        requires
            min <= max,
        ensures
            d == (RangeDomain { current: None, min, max }),
            d.inv(),
    {
        RangeDomain { current: None, min, max }
    }
}

impl Domain for RangeDomain {
    open spec fn inv(&self) -> bool {
        &&& self.min <= self.max
        &&& (self.current matches Some(v) ==> self.min <= v <= self.max)
    }

    open spec fn spec_value(&self) -> Option<i8> {
        self.current
    }

    open spec fn spec_min(&self) -> i8 {
        self.min
    }

    open spec fn spec_max(&self) -> i8 {
        self.max
    }

    open spec fn spec_is_fixed(&self) -> bool {
        self.min == self.max
    }

    proof fn lemma_inv(&self) {
    }

    fn value(&self) -> (r: Option<i8>) {
        self.current
    }

    fn is_fixed(&self) -> (r: bool) {
        self.min == self.max
    }

    fn has_next(&self) -> (r: bool) {
        match self.current {
            None => true,
            Some(v) => v < self.max,
        }
    }

    fn next(&mut self)
        ensures
            final(self).min == old(self).min,
            final(self).max == old(self).max,
            final(self).current == (match old(self).current {
                None => Some(old(self).min),
                Some(v) => if v < old(self).max {
                    Some((v + 1) as i8)
                } else {
                    old(self).current
                },
            }),
    {
        if !self.has_next() {
            return;
        }
        self.current = match self.current {
            None => Some(self.min),
            Some(v) => Some(v + 1),
        };
    }

    fn reset(&mut self)
        ensures
            final(self).current is None,
            final(self).min == old(self).min,
            final(self).max == old(self).max,
    {
        self.current = None;
    }

    fn value_belongs(&self, value: i8) -> (r: bool) {
        value >= self.min && value <= self.max
    }
}

/// The closed sum of the two domain kinds, so that a single grid can mix
/// clue cells and free cells.
#[derive(Copy, Clone, Debug)]
pub enum CellDomain {
    Fixed(FixedDomain),
    Range(RangeDomain),
}

impl CellDomain {
    /// A clue cell pinned to `value`.
    pub fn fixed(value: i8) -> (d: Self)
        ensures
            d == CellDomain::Fixed(FixedDomain { value }),
    {
        CellDomain::Fixed(FixedDomain::new(value))
    }

    /// A free cell over the non-empty interval `[min, max]`.
    pub fn range(min: i8, max: i8) -> (d: Self)
        requires
            min <= max,
        ensures
            d == CellDomain::Range(RangeDomain { current: None, min, max }),
            d.inv(),
    {
        CellDomain::Range(RangeDomain::new(min, max))
    }
}

impl Domain for CellDomain {
    open spec fn inv(&self) -> bool {
        match *self {
            CellDomain::Fixed(d) => d.inv(),
            CellDomain::Range(d) => d.inv(),
        }
    }

    open spec fn spec_value(&self) -> Option<i8> {
        match *self {
            CellDomain::Fixed(d) => d.spec_value(),
            CellDomain::Range(d) => d.spec_value(),
        }
    }

    open spec fn spec_min(&self) -> i8 {
        match *self {
            CellDomain::Fixed(d) => d.spec_min(),
            CellDomain::Range(d) => d.spec_min(),
        }
    }

    open spec fn spec_max(&self) -> i8 {
        match *self {
            CellDomain::Fixed(d) => d.spec_max(),
            CellDomain::Range(d) => d.spec_max(),
        }
    }

    open spec fn spec_is_fixed(&self) -> bool {
        match *self {
            CellDomain::Fixed(d) => d.spec_is_fixed(),
            CellDomain::Range(d) => d.spec_is_fixed(),
        }
    }

    proof fn lemma_inv(&self) {
        match *self {
            CellDomain::Fixed(d) => d.lemma_inv(),
            CellDomain::Range(d) => d.lemma_inv(),
        }
    }

    fn value(&self) -> (r: Option<i8>) {
        match *self {
            CellDomain::Fixed(d) => d.value(),
            CellDomain::Range(d) => d.value(),
        }
    }

    fn is_fixed(&self) -> (r: bool) {
        match *self {
            CellDomain::Fixed(d) => d.is_fixed(),
            CellDomain::Range(d) => d.is_fixed(),
        }
    }

    fn has_next(&self) -> (r: bool) {
        match *self {
            CellDomain::Fixed(d) => d.has_next(),
            CellDomain::Range(d) => d.has_next(),
        }
    }

    fn next(&mut self) {
        match *self {
            CellDomain::Fixed(mut d) => {
                d.next();
                *self = CellDomain::Fixed(d);
            }
            CellDomain::Range(mut d) => {
                d.next();
                *self = CellDomain::Range(d);
            }
        }
    }

    fn reset(&mut self) {
        match *self {
            CellDomain::Fixed(mut d) => {
                d.reset();
                *self = CellDomain::Fixed(d);
            }
            CellDomain::Range(mut d) => {
                d.reset();
                *self = CellDomain::Range(d);
            }
        }
    }

    fn value_belongs(&self, value: i8) -> (r: bool) {
        match *self {
            CellDomain::Fixed(d) => d.value_belongs(value),
            CellDomain::Range(d) => d.value_belongs(value),
        }
    }
}

/// The raw value square is genuinely square: every row is as long as the
/// list of rows.
pub open spec fn square_values(v: Seq<Vec<i8>>) -> bool {
    forall|i: int| 0 <= i < v.len() ==> (#[trigger] v[i])@.len() == v.len()
}

/// Every raw value lies in `[lo, hi]`.
pub open spec fn values_in_range(v: Seq<Vec<i8>>, lo: int, hi: int) -> bool {
    forall|i: int, j: int|
        0 <= i < v.len() && 0 <= j < v[i]@.len() ==> lo <= #[trigger] v[i]@[j] <= hi
}

/// The domain a raw Sudoku-style cell value stands for: the sentinel `0`
/// means an empty cell free over `[1, n]`, anything else a clue.
pub open spec fn sudoku_domain_for(raw: i8, n: i8) -> CellDomain {
    if raw == 0 {
        CellDomain::Range(RangeDomain { current: None, min: 1, max: n })
    } else {
        CellDomain::Fixed(FixedDomain { value: raw })
    }
}

/// The domain a raw binary-style cell value stands for: the sentinel `-1`
/// means an empty cell free over `[0, 1]`, anything else a clue.
pub open spec fn binary_domain_for(raw: i8) -> CellDomain {
    if raw == -1 {
        CellDomain::Range(RangeDomain { current: None, min: 0, max: 1 })
    } else {
        CellDomain::Fixed(FixedDomain { value: raw })
    }
}

/// Check that the raw square `values` is rectangular with rows as long as
/// the column of rows, and that every value lies in `[lo, hi]`.
fn validate_values(values: &Vec<Vec<i8>>, lo: i8, hi: i8) -> (r: Result<(), ConstructionError>)
    ensures
        r is Ok <==> square_values(values@) && values_in_range(values@, lo as int, hi as int),
        r matches Err(e) ==> {
            &&& (e == ConstructionError::NotSquare <==> !square_values(values@))
            &&& (e == ConstructionError::ValueOutOfRange <==> square_values(values@)
                && !values_in_range(values@, lo as int, hi as int))
        },
{
    let n = values.len();
    let mut i: usize = 0;
    while i < n
        invariant
            n == values@.len(),
            i <= n,
            forall|t: int| 0 <= t < i ==> (#[trigger] values@[t])@.len() == n,
        decreases n - i,
    {
        if values[i].len() != n {
            return Err(ConstructionError::NotSquare);
        }
        i = i + 1;
    }
    let mut i: usize = 0;
    while i < n
        invariant
            n == values@.len(),
            square_values(values@),
            i <= n,
            forall|t: int, u: int|
                0 <= t < i && 0 <= u < values@[t]@.len()
                    ==> lo <= #[trigger] values@[t]@[u] <= hi,
        decreases n - i,
    {
        let row = &values[i];
        let mut j: usize = 0;
        while j < row.len()
            invariant
                n == values@.len(),
                square_values(values@),
                i < n,
                row == &values[i as int],
                j <= row@.len(),
                forall|t: int, u: int|
                    0 <= t < i && 0 <= u < values@[t]@.len()
                        ==> lo <= #[trigger] values@[t]@[u] <= hi,
                forall|u: int| 0 <= u < j ==> lo <= #[trigger] row@[u] <= hi,
            decreases row@.len() - j,
        {
            let x = row[j];
            if x < lo || x > hi {
                return Err(ConstructionError::ValueOutOfRange);
            }
            j = j + 1;
        }
        i = i + 1;
    }
    Ok(())
}

/// Build the domain square of a Sudoku-style puzzle from its raw values:
/// `0` marks an empty cell and becomes a range domain over `[1, n]` (`n`
/// the side length); any other value becomes a clue pinned to it.
/// Rejects a non-square input and values outside `[0, n]`.
pub fn sudoku_domains_from_vec(values: &Vec<Vec<i8>>) -> (r: Result<
    Vec<Vec<CellDomain>>,
    ConstructionError,
>)
    requires
        values@.len() <= 127,
    ensures
        r is Ok <==> square_values(values@) && values_in_range(
            values@, 0, values@.len() as int),
        r matches Ok(doms) ==> {
            &&& doms@.len() == values@.len()
            &&& forall|i: int| 0 <= i < doms@.len() ==> (#[trigger] doms@[i])@.len()
                == values@.len()
            &&& forall|i: int, j: int|
                0 <= i < doms@.len() && 0 <= j < doms@.len()
                    ==> (#[trigger] doms@[i]@[j]) == sudoku_domain_for(
                        values@[i]@[j], values@.len() as i8)
            &&& forall|i: int, j: int|
                0 <= i < doms@.len() && 0 <= j < doms@.len()
                    ==> (#[trigger] doms@[i]@[j]).inv()
        },
        r matches Err(e) ==> {
            &&& (e == ConstructionError::NotSquare <==> !square_values(values@))
            &&& (e == ConstructionError::ValueOutOfRange <==> square_values(values@)
                && !values_in_range(values@, 0, values@.len() as int))
        },
{
    let n = values.len();
    match validate_values(values, 0, n as i8) {
        Ok(()) => {}
        Err(e) => {
            return Err(e);
        }
    }
    let side = n as i8;
    let mut doms: Vec<Vec<CellDomain>> = Vec::new();
    let mut i: usize = 0;
    while i < n
        invariant
            n == values@.len(),
            n <= 127,
            side == n as i8,
            square_values(values@),
            values_in_range(values@, 0, n as int),
            i <= n,
            doms@.len() == i,
            forall|t: int| 0 <= t < i ==> (#[trigger] doms@[t])@.len() == n,
            forall|t: int, u: int|
                0 <= t < i && 0 <= u < n
                    ==> (#[trigger] doms@[t]@[u]) == sudoku_domain_for(values@[t]@[u], side),
        decreases n - i,
    {
        let row = &values[i];
        let mut dom_row: Vec<CellDomain> = Vec::new();
        let mut j: usize = 0;
        while j < row.len()
            invariant
                n == values@.len(),
                n <= 127,
                side == n as i8,
                square_values(values@),
                values_in_range(values@, 0, n as int),
                i < n,
                row == &values[i as int],
                row@.len() == n,
                j <= n,
                dom_row@.len() == j,
                forall|u: int|
                    0 <= u < j
                        ==> (#[trigger] dom_row@[u]) == sudoku_domain_for(values@[i as int]@[u],
                            side),
            decreases row@.len() - j,
        {
            let x = row[j];
            if x == 0 {
                dom_row.push(CellDomain::range(1, side));
            } else {
                dom_row.push(CellDomain::fixed(x));
            }
            j = j + 1;
        }
        doms.push(dom_row);
        i = i + 1;
    }
    proof {
        assert forall|i2: int, j2: int| 0 <= i2 < doms@.len() && 0 <= j2 < doms@.len()
            implies (#[trigger] doms@[i2]@[j2]).inv() by {
            assert(doms@[i2]@[j2] == sudoku_domain_for(values@[i2]@[j2], side));
            assert(0 <= values@[i2]@[j2] <= n);
        }
    }
    Ok(doms)
}

/// Build the domain square of a binary-style puzzle from its raw values:
/// `-1` marks an empty cell and becomes a range domain over `[0, 1]`; `0`
/// and `1` become clues pinned to themselves.  Rejects a non-square input
/// and values outside `[-1, 1]`.
pub fn binary_domains_from_vec(values: &Vec<Vec<i8>>) -> (r: Result<
    Vec<Vec<CellDomain>>,
    ConstructionError,
>)
    ensures
        r is Ok <==> square_values(values@) && values_in_range(values@, -1, 1),
        r matches Ok(doms) ==> {
            &&& doms@.len() == values@.len()
            &&& forall|i: int| 0 <= i < doms@.len() ==> (#[trigger] doms@[i])@.len()
                == values@.len()
            &&& forall|i: int, j: int|
                0 <= i < doms@.len() && 0 <= j < doms@.len()
                    ==> (#[trigger] doms@[i]@[j]) == binary_domain_for(values@[i]@[j])
            &&& forall|i: int, j: int|
                0 <= i < doms@.len() && 0 <= j < doms@.len()
                    ==> (#[trigger] doms@[i]@[j]).inv()
        },
        r matches Err(e) ==> {
            &&& (e == ConstructionError::NotSquare <==> !square_values(values@))
            &&& (e == ConstructionError::ValueOutOfRange <==> square_values(values@)
                && !values_in_range(values@, -1, 1))
        },
{
    let n = values.len();
    match validate_values(values, -1, 1) {
        Ok(()) => {}
        Err(e) => {
            return Err(e);
        }
    }
    let mut doms: Vec<Vec<CellDomain>> = Vec::new();
    let mut i: usize = 0;
    while i < n
        invariant
            n == values@.len(),
            square_values(values@),
            values_in_range(values@, -1, 1),
            i <= n,
            doms@.len() == i,
            forall|t: int| 0 <= t < i ==> (#[trigger] doms@[t])@.len() == n,
            forall|t: int, u: int|
                0 <= t < i && 0 <= u < n
                    ==> (#[trigger] doms@[t]@[u]) == binary_domain_for(values@[t]@[u]),
        decreases n - i,
    {
        let row = &values[i];
        let mut dom_row: Vec<CellDomain> = Vec::new();
        let mut j: usize = 0;
        while j < row.len()
            invariant
                n == values@.len(),
                square_values(values@),
                values_in_range(values@, -1, 1),
                i < n,
                row == &values[i as int],
                row@.len() == n,
                j <= n,
                dom_row@.len() == j,
                forall|u: int|
                    0 <= u < j
                        ==> (#[trigger] dom_row@[u]) == binary_domain_for(values@[i as int]@[u]),
            decreases row@.len() - j,
        {
            let x = row[j];
            if x == -1 {
                dom_row.push(CellDomain::range(0, 1));
            } else {
                dom_row.push(CellDomain::fixed(x));
            }
            j = j + 1;
        }
        doms.push(dom_row);
        i = i + 1;
    }
    proof {
        assert forall|i2: int, j2: int| 0 <= i2 < doms@.len() && 0 <= j2 < doms@.len()
            implies (#[trigger] doms@[i2]@[j2]).inv() by {
            assert(doms@[i2]@[j2] == binary_domain_for(values@[i2]@[j2]));
            assert(-1 <= values@[i2]@[j2] <= 1);
        }
    }
    Ok(doms)
}

} // verus!
