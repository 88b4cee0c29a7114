//! The ticket with which a processor asks another for a partition.

use vstd::prelude::*;

use crate::wire::{
    last_number, lemma_uint_len, lemma_uint_round_trip, number_field, number_in, put_uint,
    read_fields, take_fields, uint, FieldKind, FieldShape, FieldView, MessageShape, ShapeView, ValueView,
};

verus! {

/// What a ticket says.
#[derive(Clone, Copy, Debug, PartialEq, Eq, Structural)]
pub struct FlightTicketData {
    pub dummy: bool,
    /// The partition that is asked for.
    pub partition: u64,
}

/// The fields of a ticket.
pub open spec fn ticket_shape() -> ShapeView {
    ShapeView {
        name: "FlightTicketData"@,
        fields: seq![
            FieldShape { name: "dummy", kind: FieldKind::Number },
            FieldShape { name: "partition", kind: FieldKind::Number },
        ],
    }
}

fn make_ticket_shape() -> (r: MessageShape)
    ensures
        r@ == ticket_shape(),
{
    let fields = vec![
        FieldShape { name: "dummy", kind: FieldKind::Number },
        FieldShape { name: "partition", kind: FieldKind::Number },
    ];
    assert(fields@ =~= ticket_shape().fields);
    MessageShape { name: "FlightTicketData", fields }
}

/// The bytes of a ticket.
pub open spec fn ticket_bytes(ticket: FlightTicketData) -> Seq<u8> {
    uint(
        1,
        if ticket.dummy {
            1
        } else {
            0
        },
    ) + uint(2, ticket.partition)
}

/// The ticket that some bytes are, or the text of the error.
pub open spec fn ticket_of(s: Seq<u8>) -> Result<FlightTicketData, Seq<char>> {
    match read_fields(ticket_shape(), s) {
        Ok(fields) => Ok(
            FlightTicketData {
                dummy: last_number(fields, 1) != 0,
                partition: last_number(fields, 2),
            },
        ),
        Err(text) => Err(text),
    }
}

impl FlightTicketData {
    /// Returns the bytes of the ticket.
    pub fn encode_to_vec(&self) -> (r: Vec<u8>)
        ensures
            r@ == ticket_bytes(*self),
    {
        let mut buf: Vec<u8> = Vec::new();
        let dummy: u64 = if self.dummy {
            1
        } else {
            0
        };
        proof {
            lemma_uint_len(1, dummy);
            lemma_uint_len(2, self.partition);
        }
        put_uint(1, dummy, &mut buf);
        put_uint(2, self.partition, &mut buf);
        assert(buf@ =~= ticket_bytes(*self));
        buf
    }

    /// Returns the ticket that the bytes are, or the text of the error.
    pub fn decode(buf: &[u8]) -> (r: Result<Self, String>)
        ensures
            match r {
                Ok(ticket) => ticket_of(buf@) == Ok::<FlightTicketData, Seq<char>>(ticket),
                Err(text) => ticket_of(buf@) == Err::<FlightTicketData, Seq<char>>(text@),
            },
    {
        let fields = take_fields(&make_ticket_shape(), buf)?;
        Ok(
            FlightTicketData {
                dummy: number_in(&fields, 1) != 0,
                partition: number_in(&fields, 2),
            },
        )
    }
}

/// Returns the partition that a ticket asks for, or the text of the error.
pub fn extract_ticket(ticket: &[u8]) -> (r: Result<usize, String>)
    ensures
        match r {
            Ok(partition) => ticket_of(ticket@) matches Ok(t) && partition == t.partition as usize,
            Err(text) => ticket_of(ticket@) == Err::<FlightTicketData, Seq<char>>(text@),
        },
{
    let data = FlightTicketData::decode(ticket)?;
    Ok(data.partition as usize)
}

/// A processor that is handed a ticket knows what was asked for.
pub proof fn lemma_ticket_round_trip(ticket: FlightTicketData)
    ensures
        ticket_of(ticket_bytes(ticket)) == Ok::<FlightTicketData, Seq<char>>(ticket),
{
    let dummy: u64 = if ticket.dummy {
        1
    } else {
        0
    };
    let second = uint(2, ticket.partition);
    lemma_uint_round_trip(ticket_shape(), 1, dummy, second);
    lemma_uint_round_trip(ticket_shape(), 2, ticket.partition, seq![]);
    assert(second + seq![] =~= second);
    let fields = read_fields(ticket_shape(), ticket_bytes(ticket))->Ok_0;
    lemma_last_number_two(dummy, ticket.partition, fields);
}

proof fn lemma_last_number_two(first: u64, second: u64, fields: Seq<FieldView>)
    requires
        fields == (if first == 0 {
            seq![]
        } else {
            seq![FieldView { tag: 1, value: ValueView::Number(first) }]
        }) + ((if second == 0 {
            seq![]
        } else {
            seq![FieldView { tag: 2, value: ValueView::Number(second) }]
        }) + Seq::<FieldView>::empty()),
    ensures
        last_number(fields, 1) == first,
        last_number(fields, 2) == second,
{
    reveal_with_fuel(last_number, 3);
    if first != 0 && second != 0 {
        assert(fields.drop_last().drop_last() =~= seq![]);
    } else if first != 0 || second != 0 {
        assert(fields.drop_last() =~= seq![]);
    }
}

/// The bytes of a ticket are the fields of a message: whether it is a dummy, and the partition.
/// What is 0 or false is left out.
pub proof fn lemma_ticket_bytes(ticket: FlightTicketData)
    ensures
        ticket_bytes(ticket) == (if ticket.dummy {
            number_field(1, 1)
        } else {
            seq![]
        }) + if ticket.partition == 0 {
            seq![]
        } else {
            number_field(2, ticket.partition)
        },
{
}

} // verus!
