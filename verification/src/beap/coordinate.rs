//! Addresses in the triangular layout of a beap and their places in the
//! backing sequence.
use vstd::prelude::*;

verus! {

/// The number of slots in the rows above row `row`: row `r` holds `r + 1` slots.
#[verifier::opaque]
pub open spec fn triangle(row: int) -> int {
    row * (row + 1) / 2
}

/// The place in the backing sequence of position `pos` of row `row`.
pub open spec fn slot(row: int, pos: int) -> int {
    triangle(row) + pos
}

/// The row that holds place `index` of the backing sequence.
pub open spec fn row_of(index: int) -> int
    decreases index,
{
    if index <= 0 {
        0
    } else {
        let before = row_of(index - 1);
        if slot(before, before) < index {
            before + 1
        } else {
            before
        }
    }
}

/// The number of rows that a sequence of length `len` fills or starts.
pub open spec fn rows(len: int) -> int {
    if len <= 0 {
        0
    } else {
        row_of(len - 1) + 1
    }
}

/// The position within its row of place `index` of the backing sequence.
pub open spec fn pos_of(index: int) -> int {
    index - triangle(row_of(index))
}

/// Each row starts where the one above it ends.
pub proof fn lemma_triangle_step(row: int)
    ensures
        triangle(row + 1) == triangle(row) + row + 1,
{
    reveal(triangle);
    assert((row + 1) * (row + 2) == row * (row + 1) + 2 * (row + 1)) by (nonlinear_arith);
}

/// No slot stands above the first row.
pub proof fn lemma_triangle_zero()
    ensures
        triangle(0) == 0,
{
    reveal(triangle);
}

/// The left child of a node stands one row's length after the node, and the
/// right child one place after the left.
pub proof fn lemma_child_slots(row: int, pos: int)
    ensures
        slot(row + 1, pos) == slot(row, pos) + row + 1,
        slot(row + 1, pos + 1) == slot(row, pos) + row + 2,
{
    lemma_triangle_step(row);
}

/// Lower rows start later, and no row starts before its own number.
pub proof fn lemma_triangle_grows(upper: int, lower: int)
    requires
        0 <= upper <= lower,
    ensures
        triangle(upper) <= triangle(lower),
        upper < lower ==> triangle(upper) + upper < triangle(lower),
        upper <= triangle(upper),
    decreases lower,
{
    if upper == 0 {
        lemma_triangle_zero();
    } else {
        lemma_triangle_step(upper - 1);
        lemma_triangle_grows(upper - 1, upper - 1);
    }
    if upper < lower {
        lemma_triangle_step(lower - 1);
        lemma_triangle_grows(upper, lower - 1);
    }
}

/// Two addresses with the same place are the same address.
pub proof fn lemma_slot_injective(row_a: int, pos_a: int, row_b: int, pos_b: int)
    requires
        0 <= pos_a <= row_a,
        0 <= pos_b <= row_b,
    ensures
        slot(row_a, pos_a) == slot(row_b, pos_b) ==> row_a == row_b && pos_a == pos_b,
        row_a < row_b ==> slot(row_a, pos_a) < slot(row_b, pos_b),
        0 <= slot(row_a, pos_a),
{
    lemma_triangle_grows(row_a, row_a);
    if row_a < row_b {
        lemma_triangle_grows(row_a, row_b);
    } else if row_b < row_a {
        lemma_triangle_grows(row_b, row_a);
    }
}

/// No address has a place before the first, nor one before the number of
/// its row.
pub proof fn lemma_slot_nonnegative(row: int, pos: int)
    requires
        0 <= pos <= row,
    ensures
        0 <= row <= slot(row, pos),
{
    lemma_triangle_grows(row, row);
}

/// `row_of` and `pos_of` name the one address whose place is `index`.
pub proof fn lemma_address_of_index(index: int)
    requires
        0 <= index,
    ensures
        0 <= pos_of(index) <= row_of(index),
        slot(row_of(index), pos_of(index)) == index,
        row_of(index) <= index,
    decreases index,
{
    if index == 0 {
        lemma_triangle_zero();
    } else {
        lemma_address_of_index(index - 1);
        lemma_triangle_step(row_of(index - 1));
    }
}

/// The address of the place of an address is that address.
pub proof fn lemma_index_of_address(row: int, pos: int)
    requires
        0 <= pos <= row,
    ensures
        row_of(slot(row, pos)) == row,
        pos_of(slot(row, pos)) == pos,
{
    lemma_triangle_grows(row, row);
    lemma_address_of_index(slot(row, pos));
    lemma_slot_injective(row_of(slot(row, pos)), pos_of(slot(row, pos)), row, pos);
}

/// The address of a node: its row, and its position within that row.
#[derive(Debug, Copy, Clone, PartialEq, Eq, Structural)]
pub struct BeapCoordinate {
    row: usize,
    pos: usize,
}

impl BeapCoordinate {
    #[verifier::type_invariant]
    spec fn within_row(self) -> bool {
        self.pos <= self.row
    }

    /// The row of this address.
    pub closed spec fn spec_row(&self) -> usize {
        self.row
    }

    /// The position of this address within its row.
    pub closed spec fn spec_pos(&self) -> usize {
        self.pos
    }

    /// The place of this address in the backing sequence.
    pub open spec fn index(self) -> int {
        slot(self.row() as int, self.pos() as int)
    }

    /// The address with the given row and position.
    pub closed spec fn at(row: int, pos: int) -> Self {
        BeapCoordinate { row: row as usize, pos: pos as usize }
    }

    /// The parent up and to the left, which the first node of a row lacks.
    pub open spec fn spec_left_parent(&self) -> Option<Self> {
        if self.row() > 0 && self.pos() > 0 {
            Some(Self::at(self.row() - 1, self.pos() - 1))
        } else {
            None
        }
    }

    /// The parent up and to the right, which the last node of a row lacks.
    pub open spec fn spec_right_parent(&self) -> Option<Self> {
        if self.row() > 0 && self.pos() < self.row() {
            Some(Self::at(self.row() - 1, self.pos() as int))
        } else {
            None
        }
    }

    /// The address down and to the left.
    pub open spec fn spec_left_child(&self) -> Self {
        Self::at(self.row() + 1, self.pos() as int)
    }

    /// The address down and to the right.
    pub open spec fn spec_right_child(&self) -> Self {
        Self::at(self.row() + 1, self.pos() + 1)
    }

    /// An address is its row and its position, and nothing else.
    pub proof fn lemma_at(row: int, pos: int)
        requires
            0 <= row <= usize::MAX,
            0 <= pos <= usize::MAX,
        ensures
            Self::at(row, pos).row() == row,
            Self::at(row, pos).pos() == pos,
            forall|c: Self| c.row() == row && c.pos() == pos ==> c == Self::at(row, pos),
    {
    }

    /// The address whose place in the backing sequence is `index`.
    pub open spec fn spec_from_index(index: usize) -> Self {
        Self::at(row_of(index as int), pos_of(index as int))
    }

    /// The place of the address of a place is that place.
    pub proof fn lemma_index_round_trip(index: usize)
        ensures
            Self::from_index(index).index() == index,
            Self::from_index(index).pos() <= Self::from_index(index).row(),
    {
        lemma_address_of_index(index as int);
        Self::lemma_at(row_of(index as int), pos_of(index as int));
    }

    /// The address of the place of an address is that address.
    pub proof fn lemma_address_round_trip(self)
        requires
            self.pos() <= self.row(),
            self.index() <= usize::MAX,
        ensures
            Self::from_index(self.index() as usize) == self,
    {
        lemma_slot_nonnegative(self.row() as int, self.pos() as int);
        lemma_index_of_address(self.row() as int, self.pos() as int);
        Self::lemma_at(self.row() as int, self.pos() as int);
    }

    /// The left child of a node has that node as its right parent, and the
    /// right child has it as its left parent.
    pub proof fn lemma_parent_of_child(self)
        requires
            self.pos() <= self.row() < usize::MAX,
        ensures
            self.left_child().right_parent() == Some(self),
            self.right_child().left_parent() == Some(self),
    {
        Self::lemma_at(self.row() + 1, self.pos() as int);
        Self::lemma_at(self.row() + 1, self.pos() + 1);
        Self::lemma_at(self.row() as int, self.pos() as int);
    }

    /// A node is the right child of its left parent and the left child of its
    /// right parent.
    pub proof fn lemma_child_of_parent(self, parent: Self)
        requires
            self.pos() <= self.row(),
        ensures
            self.left_parent() == Some(parent) ==> parent.right_child() == self,
            self.right_parent() == Some(parent) ==> parent.left_child() == self,
    {
        Self::lemma_at(self.row() as int, self.pos() as int);
        if self.row() > 0 {
            Self::lemma_at(self.row() - 1, self.pos() as int);
            if self.pos() > 0 {
                Self::lemma_at(self.row() - 1, self.pos() - 1);
            }
        }
    }

    /// The address `(row, pos)` of a position within its row.
    pub(crate) fn new(row: usize, pos: usize) -> (c: Self)
        requires
            pos <= row,
        ensures
            c == Self::at(row as int, pos as int),
            c.row() == row,
            c.pos() == pos,
    {
        Self { row, pos }
    }

    /// The address `(row, pos)`, unless `pos` lies beyond the end of the row.
    pub fn from_coords(row: usize, pos: usize) -> (r: Option<Self>)
        ensures
            r == if pos <= row {
                Some(Self::at(row as int, pos as int))
            } else {
                None
            },
            r matches Some(c) ==> c.row() == row && c.pos() == pos,
    {
        if pos > row {
            None
        } else {
            Some(Self { row, pos })
        }
    }

    /// The address whose place in the backing sequence is `index`.
    #[verifier::when_used_as_spec(spec_from_index)]
    pub fn from_index(index: usize) -> (c: Self)
        ensures
            c == Self::from_index(index),
            c.row() == row_of(index as int),
            c.pos() == pos_of(index as int),
            c.pos() <= c.row(),
            c.index() == index,
    {
        let mut row: usize = 1;
        let mut pos: usize = index;
        proof {
            lemma_triangle_zero();
        }
        while pos >= row
            invariant
                1 <= row,
                triangle(row - 1) + pos == index,
            decreases pos,
        {
            proof {
                lemma_triangle_step(row - 1);
                lemma_triangle_grows(row - 1, row - 1);
            }
            pos -= row;
            row += 1;
        }
        proof {
            lemma_index_of_address(row - 1, pos as int);
            Self::lemma_at(row - 1, pos as int);
        }
        Self { row: row - 1, pos }
    }

    /// The address of the root.
    pub fn zero() -> (c: Self)
        ensures
            c == Self::at(0, 0),
            c.row() == 0,
            c.pos() == 0,
            c.index() == 0,
    {
        proof {
            Self::lemma_at(0, 0);
            lemma_triangle_zero();
        }
        Self::new(0, 0)
    }

    /// The row of this address.
    #[verifier::when_used_as_spec(spec_row)]
    pub fn row(&self) -> (r: usize)
        ensures
            r == self.row(),
    {
        self.row
    }

    /// The position of this address within its row.
    #[verifier::when_used_as_spec(spec_pos)]
    pub fn pos(&self) -> (r: usize)
        ensures
            r == self.pos(),
            r <= self.row(),
    {
        proof {
            use_type_invariant(self);
        }
        self.pos
    }

    /// The place of this address in the backing sequence, where a `usize`
    /// can hold it.
    pub fn checked_array_index(&self) -> (r: Option<usize>)
        ensures
            r.is_some() == (self.index() <= usize::MAX),
            r matches Some(i) ==> i == self.index(),
            self.pos() <= self.row(),
    {
        let place: u128 = self.wide_index();
        if place > usize::MAX as u128 {
            None
        } else {
            Some(place as usize)
        }
    }

    fn wide_index(&self) -> (place: u128)
        ensures
            place == self.index(),
            self.pos() <= self.row(),
    {
        proof {
            use_type_invariant(self);
        }
        let row: u128 = self.row as u128;
        let pos: u128 = self.pos as u128;
        proof {
            reveal(triangle);
        }
        assert(row * (row + 1) <= 0xffff_ffff_ffff_ffff * 0x1_0000_0000_0000_0000)
            by (nonlinear_arith)
            requires
                0 <= row <= 0xffff_ffff_ffff_ffff,
        ;
        row * (row + 1) / 2 + pos
    }

    /// The place of this address in the backing sequence.
    pub fn array_index(&self) -> (i: usize)
        requires
            self.index() <= usize::MAX,
        ensures
            i == self.index(),
            self.pos() <= self.row(),
    {
        self.wide_index() as usize
    }

    /// The parent up and to the left, which the first node of a row lacks.
    #[verifier::when_used_as_spec(spec_left_parent)]
    pub fn left_parent(&self) -> (r: Option<Self>)
        ensures
            r == self.left_parent(),
            self.pos() <= self.row(),
            r matches Some(p) ==> p.row() == self.row() - 1 && p.pos() == self.pos() - 1,
    {
        proof {
            use_type_invariant(self);
        }
        if self.row == 0 {
            return None;
        }
        if self.pos == 0 {
            return None;
        }
        proof {
            Self::lemma_at(self.row - 1, self.pos - 1);
        }
        Some(Self::new(self.row - 1, self.pos - 1))
    }

    /// The parent up and to the right, which the last node of a row lacks.
    #[verifier::when_used_as_spec(spec_right_parent)]
    pub fn right_parent(&self) -> (r: Option<Self>)
        ensures
            r == self.right_parent(),
            self.pos() <= self.row(),
            r matches Some(p) ==> p.row() == self.row() - 1 && p.pos() == self.pos(),
    {
        proof {
            use_type_invariant(self);
        }
        if self.row == 0 {
            return None;
        }
        if self.pos == self.row {
            return None;
        }
        proof {
            Self::lemma_at(self.row - 1, self.pos as int);
        }
        Some(Self::new(self.row - 1, self.pos))
    }

    /// The address down and to the left. Whether a node stands there depends
    /// on the length of the beap.
    #[verifier::when_used_as_spec(spec_left_child)]
    pub fn left_child(&self) -> (c: Self)
        requires
            self.row() < usize::MAX,
        ensures
            c == self.left_child(),
            self.pos() <= self.row(),
            c.row() == self.row() + 1,
            c.pos() == self.pos(),
    {
        proof {
            use_type_invariant(self);
            Self::lemma_at(self.row + 1, self.pos as int);
        }
        let pos: usize = self.pos;
        Self::new(self.row + 1, pos)
    }

    /// The address down and to the right. Whether a node stands there depends
    /// on the length of the beap.
    #[verifier::when_used_as_spec(spec_right_child)]
    pub fn right_child(&self) -> (c: Self)
        requires
            self.row() < usize::MAX,
        ensures
            c == self.right_child(),
            self.pos() <= self.row(),
            c.row() == self.row() + 1,
            c.pos() == self.pos() + 1,
    {
        proof {
            use_type_invariant(self);
            Self::lemma_at(self.row + 1, self.pos + 1);
        }
        let pos: usize = self.pos;
        Self::new(self.row + 1, pos + 1)
    }
}

} // verus!
