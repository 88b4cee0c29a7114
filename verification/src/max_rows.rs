//! Keeping batches small enough to send.

use vstd::prelude::*;

use crate::plan::{ExecutionPlan, Node, Tree};
use crate::text::around;
use crate::text::digits;

verus! {

/// Yields no batch of more than `max_rows` rows.
///
/// A larger batch of its input is split without copying, until what remains of it has
/// at most `max_rows` rows. Each piece is an item of its own.
#[derive(Debug)]
pub struct MaxRowsExec {
    pub input: Box<ExecutionPlan>,
    pub max_rows: usize,
}

/// A piece of a batch: the row that it starts at, and how many rows it has.
#[derive(Clone, Copy, Debug, PartialEq, Eq, Structural)]
pub struct BatchSlice {
    pub offset: usize,
    pub len: usize,
}

/// The pieces of the rows from `offset` on of a batch that ends at row `end`.
pub open spec fn slices(offset: nat, end: nat, max_rows: nat) -> Seq<BatchSlice>
    decreases end - offset,
{
    if max_rows == 0 || end <= offset + max_rows {
        seq![BatchSlice { offset: offset as usize, len: (end - offset) as usize }]
    } else {
        seq![BatchSlice { offset: offset as usize, len: max_rows as usize }] + slices(
            offset + max_rows,
            end,
            max_rows,
        )
    }
}

/// A plan under a limit on the rows of a batch.
pub open spec fn max_rows_tree(input: Tree, max_rows: usize) -> Tree {
    Tree { node: Node::MaxRows { max_rows }, inputs: seq![input] }
}

impl MaxRowsExec {
    /// Limits the batches of `input` to `max_rows` rows.
    pub fn new(input: ExecutionPlan, max_rows: usize) -> (r: Self)
        ensures
            ExecutionPlan::MaxRows(r)@ == max_rows_tree(input@, max_rows),
            *r.input == input,
            r.max_rows == max_rows,
    {
        MaxRowsExec { input: Box::new(input), max_rows }
    }

    /// Returns the name of the node.
    pub fn name(&self) -> (s: &'static str)
        ensures
            s@ == "MaxRowsExec"@,
    {
        "MaxRowsExec"
    }

    /// Returns the line that shows the node in a plan.
    pub fn fmt_as(&self) -> (s: String)
        ensures
            s@ == "MaxRowsExec[max_rows="@ + digits(self.max_rows as nat) + "]"@,
    {
        around("MaxRowsExec[max_rows=", self.max_rows, "]")
    }

    /// Returns the node over another input.
    pub fn with_new_children(&self, children: Vec<ExecutionPlan>) -> (r: Self)
        requires
            children.len() == 1,
        ensures
            *r.input == children[0],
            r.max_rows == self.max_rows,
    {
        let mut children = children;
        MaxRowsExec::new(children.remove(0), self.max_rows)
    }

    /// Returns the pieces in which a batch of `num_rows` rows is yielded, in order.
    pub fn split(&self, num_rows: usize) -> (r: Vec<BatchSlice>)
        requires
            self.max_rows > 0,
        ensures
            r@ == slices(0, num_rows as nat, self.max_rows as nat),
            r@.len() > 0,
            forall|i: int| 0 <= i < r@.len() ==> (#[trigger] r@[i]).offset == i * self.max_rows,
            forall|i: int| 0 <= i < r@.len() - 1 ==> (#[trigger] r@[i]).len == self.max_rows,
            r@.last().len <= self.max_rows,
            r@.last().offset + r@.last().len == num_rows,
            r@.last().len == 0 ==> num_rows == 0,
    {
        proof {
            lemma_pieces_are_full(num_rows, self.max_rows);
        }
        let mut pieces: Vec<BatchSlice> = Vec::new();
        let mut offset: usize = 0;
        while num_rows - offset > self.max_rows
            invariant
                self.max_rows > 0,
                offset <= num_rows,
                slices(0, num_rows as nat, self.max_rows as nat) == pieces@ + slices(
                    offset as nat,
                    num_rows as nat,
                    self.max_rows as nat,
                ),
            decreases num_rows - offset,
        {
            let ghost before = pieces@;
            pieces.push(BatchSlice { offset, len: self.max_rows });
            offset = offset + self.max_rows;
            assert(before + slices(
                (offset - self.max_rows) as nat,
                num_rows as nat,
                self.max_rows as nat,
            ) =~= pieces@ + slices(offset as nat, num_rows as nat, self.max_rows as nat));
        }
        let ghost before = pieces@;
        pieces.push(BatchSlice { offset, len: num_rows - offset });
        assert(pieces@ =~= before + slices(
            offset as nat,
            num_rows as nat,
            self.max_rows as nat,
        ));
        pieces
    }
}

/// The number of rows in some pieces of a batch.
pub open spec fn rows(pieces: Seq<BatchSlice>) -> nat
    decreases pieces.len(),
{
    if pieces.len() == 0 {
        0
    } else {
        pieces[0].len as nat + rows(pieces.drop_first())
    }
}

/// Splitting a batch loses no row, repeats none and keeps their order: the first piece
/// starts where the batch does, each piece starts where the one before it ends, and the
/// rows of all pieces are as many as the batch has. No piece has more than `max_rows`
/// rows, and a batch within the limit passes through whole.
pub proof fn lemma_split_keeps_rows(offset: nat, end: nat, max_rows: nat)
    requires
        0 < max_rows <= usize::MAX,
        offset <= end <= usize::MAX,
    ensures
        slices(offset, end, max_rows).len() > 0,
        slices(offset, end, max_rows)[0].offset == offset,
        forall|i: int|
            0 <= i < slices(offset, end, max_rows).len() ==> (#[trigger] slices(
                offset,
                end,
                max_rows,
            )[i]).len <= max_rows,
        forall|i: int|
            0 < i < slices(offset, end, max_rows).len() ==> (#[trigger] slices(
                offset,
                end,
                max_rows,
            )[i]).offset == slices(offset, end, max_rows)[i - 1].offset + slices(
                offset,
                end,
                max_rows,
            )[i - 1].len,
        rows(slices(offset, end, max_rows)) == end - offset,
        end - offset <= max_rows ==> slices(offset, end, max_rows).len() == 1,
    decreases end - offset,
{
    let s = slices(offset, end, max_rows);
    if end <= offset + max_rows {
        assert(s.drop_first() =~= seq![]);
        assert(rows(s.drop_first()) == 0);
    } else {
        let rest = slices(offset + max_rows, end, max_rows);
        lemma_split_keeps_rows(offset + max_rows, end, max_rows);
        assert(s.drop_first() =~= rest);
        assert forall|i: int| 0 <= i < s.len() implies (#[trigger] s[i]).len <= max_rows by {
            if i > 0 {
                assert(s[i] == rest[i - 1]);
            }
        }
        assert forall|i: int| 0 < i < s.len() implies (#[trigger] s[i]).offset == s[i - 1].offset
            + s[i - 1].len by {
            assert(s[i] == rest[i - 1]);
            if i > 1 {
                assert(s[i - 1] == rest[i - 2]);
            }
        }
    }
}

proof fn lemma_pieces_from(offset: nat, end: nat, max_rows: nat)
    requires
        0 < max_rows <= usize::MAX,
        offset <= end <= usize::MAX,
    ensures
        ({
            let s = slices(offset, end, max_rows);
            let last = s.len() - 1;
            &&& last >= 0
            &&& forall|i: int| 0 <= i <= last ==> (#[trigger] s[i]).offset == offset + i * max_rows
            &&& forall|i: int| 0 <= i < last ==> (#[trigger] s[i]).len == max_rows
            &&& s[last].offset + s[last].len == end
            &&& s[last].len <= max_rows
            &&& offset < end ==> s[last].len > 0
            &&& offset == end ==> last == 0
        }),
    decreases end - offset,
{
    let s = slices(offset, end, max_rows);
    assert(0 * max_rows == 0) by (nonlinear_arith);
    if end > offset + max_rows {
        lemma_pieces_from(offset + max_rows, end, max_rows);
        let rest = slices(offset + max_rows, end, max_rows);
        assert(forall|i: int| 0 < i < s.len() ==> #[trigger] s[i] == rest[i - 1]);
        assert forall|i: int| 0 <= i < s.len() implies (#[trigger] s[i]).offset == offset + i
            * max_rows by {
            if i > 0 {
                assert(rest[i - 1].offset == offset + max_rows + (i - 1) * max_rows);
                assert(max_rows + (i - 1) * max_rows == i * max_rows) by (nonlinear_arith);
            }
        }
    }
}

/// Every piece of a batch but the last has exactly `max_rows` rows: piece `i` starts at row
/// `i * max_rows`, the last ends where the batch does and is empty only if the batch is, and
/// there are as many pieces as that takes.
pub proof fn lemma_pieces_are_full(num_rows: usize, max_rows: usize)
    requires
        max_rows > 0,
    ensures
        ({
            let s = slices(0, num_rows as nat, max_rows as nat);
            let last = s.len() - 1;
            &&& s.len() == if num_rows == 0 {
                1
            } else {
                (num_rows + max_rows - 1) / max_rows as int
            }
            &&& forall|i: int| 0 <= i <= last ==> (#[trigger] s[i]).offset == i * max_rows
            &&& forall|i: int| 0 <= i < last ==> (#[trigger] s[i]).len == max_rows
            &&& s[last].len == num_rows - last * max_rows
            &&& s[last].len <= max_rows
            &&& s[last].len == 0 ==> num_rows == 0
        }),
{
    let s = slices(0, num_rows as nat, max_rows as nat);
    let last = s.len() - 1;
    lemma_pieces_from(0, num_rows as nat, max_rows as nat);
    if num_rows > 0 {
        let left = num_rows - last * max_rows;
        assert((last + 1) * max_rows == last * max_rows + max_rows) by (nonlinear_arith);
        vstd::arithmetic::div_mod::lemma_fundamental_div_mod_converse(
            num_rows + max_rows - 1,
            max_rows as int,
            last + 1,
            left - 1,
        );
    }
}

} // verus!
