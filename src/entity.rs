//! Entity state records and application messages: how a networked entity's
//! values and a message's values are laid out, and how a live-state payload
//! is read back.
use crate::bits::{
    bits_to_bytes, bytes_to_bits, nat_to_bits, read_bytes, read_uint, write_bytes, write_uint, Bits,
    MAX_BITS,
};
use crate::values::{
    append_value, decode_value, decode_with_known_type, encode_value, field, type_of, value_fits,
    NetworkedValue, NetworkedValueTypes, TypeCodeError, ValueModel,
};
use vstd::prelude::*;

verus! {

/// The bits of the send-time stamp that opens a live-state payload.
pub const STATE_STAMP_BITS: usize = 64;

/// The message type that carries an id assignment.
pub const ID_SYNC_MESSAGE_TYPE: u16 = 0;

/// The identity of a networked entity.
#[derive(Clone, Copy, Debug, PartialEq, Eq, Structural)]
pub struct NetworkedNode {
    /// Its network id; zero until the server assigns one.
    pub objectid: u16,
    /// The peer that owns it.
    pub owner_id: u16,
}

/// Why reading a live-state payload stopped early.
#[derive(Clone, Copy, Debug, PartialEq, Eq, Structural)]
pub enum StateError {
    /// A record names an entity nobody registered.
    MissingEntity(u16),
    /// A record's values ran past the end of the payload.
    DecodeFailure(u16),
}

/// The models of a list of values.
pub open spec fn value_views(v: Seq<NetworkedValue>) -> Seq<ValueModel> {
    v.map_values(|x: NetworkedValue| x@)
}

/// The bits of a list of values, one after another.
pub open spec fn encode_values(vs: Seq<ValueModel>) -> Seq<bool>
    decreases vs.len(),
{
    if vs.len() == 0 {
        Seq::empty()
    } else {
        encode_values(vs.drop_last()) + encode_value(vs.last())
    }
}

/// Reading values of the given types one after another from `pos`: the
/// values and the position after them, or `None` if one runs out of bits.
pub open spec fn decode_values(s: Seq<bool>, pos: int, types: Seq<NetworkedValueTypes>) -> Option<
    (Seq<ValueModel>, int),
>
    decreases types.len(),
{
    if types.len() == 0 {
        Some((Seq::empty(), pos))
    } else {
        match decode_value(s, pos, types[0]) {
            None => None,
            Some((v, p)) => match decode_values(s, p, types.drop_first()) {
                None => None,
                Some((vs, q)) => Some((seq![v] + vs, q)),
            },
        }
    }
}

/// `vals` followed by what `rest` decoded, if it decoded.
pub open spec fn prepend(vals: Seq<ValueModel>, rest: Option<(Seq<ValueModel>, int)>) -> Option<
    (Seq<ValueModel>, int),
> {
    match rest {
        None => None,
        Some((vs, q)) => Some((vals + vs, q)),
    }
}

/// A value read from an in-bounds position ends at or after it.
pub proof fn lemma_decode_value_advances(s: Seq<bool>, pos: int, t: NetworkedValueTypes)
    requires
        0 <= pos <= s.len(),
    ensures
        match decode_value(s, pos, t) {
            Some((_, p)) => pos <= p <= s.len(),
            None => true,
        },
{
}

proof fn lemma_decode_values_advances(s: Seq<bool>, pos: int, types: Seq<NetworkedValueTypes>)
    requires
        0 <= pos <= s.len(),
    ensures
        match decode_values(s, pos, types) {
            Some((vs, p)) => pos <= p <= s.len() && vs.len() == types.len(),
            None => true,
        },
    decreases types.len(),
{
    if types.len() > 0 {
        lemma_decode_value_advances(s, pos, types[0]);
        match decode_value(s, pos, types[0]) {
            Some((v, p)) => lemma_decode_values_advances(s, p, types.drop_first()),
            None => {},
        }
    }
}

impl NetworkedNode {
    /// The entity's state record: its id, then each value.
    pub fn get_byte_data(&self, values: &Vec<NetworkedValue>, types: &Vec<NetworkedValueTypes>) -> (r:
        Bits)
        requires
            values@.len() == types@.len(),
            forall|i: int|
                0 <= i < values@.len() ==> type_of(#[trigger] values@[i]@) == types@[i]
                    && value_fits(values@[i]@),
            16 + encode_values(value_views(values@)).len() <= MAX_BITS,
        ensures
            r@ == nat_to_bits(self.objectid as nat, 16) + encode_values(value_views(values@)),
    {
        let mut r = Bits::new();
        write_uint(&mut r, self.objectid as u64, 16);
        let ghost head = r@;
        proof {
            crate::bits::lemma_nat_to_bits_len(self.objectid as nat, 16);
            assert(value_views(values@).subrange(0, 0) =~= Seq::<ValueModel>::empty());
            assert(head + encode_values(Seq::<ValueModel>::empty()) =~= head);
        }
        let mut i: usize = 0;
        while i < values.len()
            invariant
                i <= values@.len(),
                head.len() == 16,
                forall|k: int|
                    0 <= k < values@.len() ==> value_fits((#[trigger] values@[k])@),
                16 + encode_values(value_views(values@)).len() <= MAX_BITS,
                r@ == head + encode_values(value_views(values@).subrange(0, i as int)),
            decreases values@.len() - i,
        {
            let ghost vs = value_views(values@);
            proof {
                assert(vs.subrange(0, i + 1).drop_last() =~= vs.subrange(0, i as int));
                lemma_encode_values_prefix(vs, i + 1);
            }
            append_value(&mut r, &values[i]);
            i = i + 1;
            assert(r@ =~= head + encode_values(vs.subrange(0, i as int)));
        }
        assert(value_views(values@).subrange(0, values@.len() as int) =~= value_views(values@));
        r
    }

    /// Reads the entity's values from `*pointer` on, one of each type, and
    /// moves the pointer past them. If one runs out of bits it returns
    /// `None`; the rest of the payload can then not be read.
    pub fn update_networked_values(
        &self,
        pointer: &mut usize,
        data: &Bits,
        types: &Vec<NetworkedValueTypes>,
    ) -> (r: Option<Vec<NetworkedValue>>)
        requires
            *old(pointer) <= data@.len(),
        ensures
            match decode_values(data@, *old(pointer) as int, types@) {
                Some((vs, p)) => r is Some && value_views(r->Some_0@) == vs && *final(pointer)
                    == p,
                None => r is None,
            },
            *final(pointer) <= data@.len(),
    {
        read_values(data, pointer, types)
    }
}

proof fn lemma_encode_values_prefix(vs: Seq<ValueModel>, k: int)
    requires
        0 <= k <= vs.len(),
    ensures
        encode_values(vs.subrange(0, k)).len() <= encode_values(vs).len(),
    decreases vs.len() - k,
{
    if k < vs.len() {
        lemma_encode_values_prefix(vs, k + 1);
        assert(vs.subrange(0, k + 1).drop_last() =~= vs.subrange(0, k));
    } else {
        assert(vs.subrange(0, k) =~= vs);
    }
}

/// Reads values of the given types one after another.
pub fn read_values(data: &Bits, pointer: &mut usize, types: &Vec<NetworkedValueTypes>) -> (r:
    Option<Vec<NetworkedValue>>)
    requires
        *old(pointer) <= data@.len(),
    ensures
        match decode_values(data@, *old(pointer) as int, types@) {
            Some((vs, p)) => r is Some && value_views(r->Some_0@) == vs && *final(pointer) == p,
            None => r is None,
        },
        *final(pointer) <= data@.len(),
{
    let ghost start = *pointer as int;
    let mut out: Vec<NetworkedValue> = Vec::new();
    let mut i: usize = 0;
    assert(types@.subrange(0, types@.len() as int) =~= types@);
    while i < types.len()
        invariant
            start == *old(pointer) as int,
            i <= types@.len(),
            *pointer <= data@.len(),
            decode_values(data@, start, types@) == prepend(
                value_views(out@),
                decode_values(data@, *pointer as int, types@.subrange(i as int, types@.len() as int)),
            ),
        decreases types@.len() - i,
    {
        let ghost rest = types@.subrange(i as int, types@.len() as int);
        let ghost before = value_views(out@);
        let ghost p0 = *pointer as int;
        assert(rest.drop_first() =~= types@.subrange(i + 1, types@.len() as int));
        proof {
            lemma_decode_value_advances(data@, p0, types@[i as int]);
        }
        match decode_with_known_type(data, pointer, &types[i]) {
            None => {
                assert(rest[0] == types@[i as int]);
                assert(decode_values(data@, p0, rest) is None);
                return None;
            },
            Some(v) => {
                out.push(v);
                proof {
                    assert(value_views(out@) =~= before + seq![v@]);
                    match decode_values(data@, *pointer as int, rest.drop_first()) {
                        None => {},
                        Some((vs, q)) => {
                            assert(before + seq![v@] + vs =~= before + (seq![v@] + vs));
                        },
                    }
                }
            },
        }
        i = i + 1;
    }
    proof {
        assert(types@.subrange(i as int, types@.len() as int) =~= Seq::<NetworkedValueTypes>::empty());
        assert(value_views(out@) + Seq::<ValueModel>::empty() =~= value_views(out@));
    }
    Some(out)
}

/// The value types registered for each entity id.
pub open spec fn table_view(t: Seq<(u16, Vec<NetworkedValueTypes>)>) -> Seq<
    (u16, Seq<NetworkedValueTypes>),
> {
    t.map_values(|e: (u16, Vec<NetworkedValueTypes>)| (e.0, e.1@))
}

/// The value types of the first entity registered under `id`.
pub open spec fn lookup_types(table: Seq<(u16, Seq<NetworkedValueTypes>)>, id: u16) -> Option<
    Seq<NetworkedValueTypes>,
>
    decreases table.len(),
{
    if table.len() == 0 {
        None
    } else if table[0].0 == id {
        Some(table[0].1)
    } else {
        lookup_types(table.drop_first(), id)
    }
}

/// Reading entity records from `pos` on: each is a 16-bit entity id and
/// that entity's values. Reading stops at the end of the bits (fewer than
/// sixteen left), or with an error at a record whose entity is unknown or
/// whose values run out; the records before it stand.
pub open spec fn parse_records(
    s: Seq<bool>,
    pos: int,
    table: Seq<(u16, Seq<NetworkedValueTypes>)>,
) -> (Seq<(u16, Seq<ValueModel>)>, Option<StateError>)
    decreases s.len() - pos,
{
    if pos < 0 || pos + 16 > s.len() {
        (Seq::empty(), None)
    } else {
        let id = field(s, pos, 16) as u16;
        match lookup_types(table, id) {
            None => (Seq::empty(), Some(StateError::MissingEntity(id))),
            Some(types) => match decode_values(s, pos + 16, types) {
                None => (Seq::empty(), Some(StateError::DecodeFailure(id))),
                Some((vs, p)) => if pos < p <= s.len() {
                    let (rest, e) = parse_records(s, p, table);
                    (seq![(id, vs)] + rest, e)
                } else {
                    (seq![(id, vs)], None)
                },
            },
        }
    }
}

/// The records of a decoded state payload.
pub open spec fn record_views(r: Seq<(u16, Vec<NetworkedValue>)>) -> Seq<(u16, Seq<ValueModel>)> {
    r.map_values(|e: (u16, Vec<NetworkedValue>)| (e.0, value_views(e.1@)))
}

/// What a live-state payload held.
#[derive(Clone, Debug, PartialEq, Eq)]
pub struct StatePayload {
    /// Entity ids with their decoded values, in payload order.
    pub records: Vec<(u16, Vec<NetworkedValue>)>,
    /// Why reading stopped early, if it did.
    pub error: Option<StateError>,
}

/// The position of the first entity registered under `id`.
fn find_types(table: &Vec<(u16, Vec<NetworkedValueTypes>)>, id: u16) -> (r: Option<usize>)
    ensures
        match lookup_types(table_view(table@), id) {
            Some(t) => r is Some && r->Some_0 < table@.len() && table@[r->Some_0 as int].1@ == t,
            None => r is None,
        },
{
    let mut i: usize = 0;
    assert(table_view(table@).subrange(0, table@.len() as int) =~= table_view(table@));
    while i < table.len()
        invariant
            i <= table@.len(),
            lookup_types(table_view(table@), id) == lookup_types(
                table_view(table@).subrange(i as int, table@.len() as int),
                id,
            ),
        decreases table@.len() - i,
    {
        let ghost rest = table_view(table@).subrange(i as int, table@.len() as int);
        assert(rest.drop_first() =~= table_view(table@).subrange(i + 1, table@.len() as int));
        if table[i].0 == id {
            return Some(i);
        }
        i = i + 1;
    }
    assert(table_view(table@).subrange(i as int, table@.len() as int) =~= Seq::<
        (u16, Seq<NetworkedValueTypes>),
    >::empty());
    None
}

/// Reads a live-state payload: after the 64-bit send-time stamp, entity
/// records until the bits run out or a record cannot be read. An unknown
/// entity, or values that run out, stop reading there: the length of what
/// follows is unknown.
pub fn decode_state_payload(data: &Bits, table: &Vec<(u16, Vec<NetworkedValueTypes>)>) -> (r:
    StatePayload)
    ensures
        (record_views(r.records@), r.error) == parse_records(
            data@,
            STATE_STAMP_BITS as int,
            table_view(table@),
        ),
{
    let len = data.len();
    let mut records: Vec<(u16, Vec<NetworkedValue>)> = Vec::new();
    let mut pos: usize = STATE_STAMP_BITS;
    assert(record_views(records@) =~= Seq::<(u16, Seq<ValueModel>)>::empty());
    assert(parse_records(data@, STATE_STAMP_BITS as int, table_view(table@)) == join(
        record_views(records@),
        parse_records(data@, pos as int, table_view(table@)),
    )) by {
        let x = parse_records(data@, STATE_STAMP_BITS as int, table_view(table@));
        assert(Seq::<(u16, Seq<ValueModel>)>::empty() + x.0 =~= x.0);
    }
    loop
        invariant
            len == data@.len(),
            parse_records(data@, STATE_STAMP_BITS as int, table_view(table@)) == join(
                record_views(records@),
                parse_records(data@, pos as int, table_view(table@)),
            ),
        decreases len - pos,
    {
        let ghost before = record_views(records@);
        if pos > len || len - pos < 16 {
            assert(before + Seq::<(u16, Seq<ValueModel>)>::empty() =~= before);
            return StatePayload { records, error: None };
        }
        let id = read_uint(data, pos, 16);
        proof {
            crate::bits::lemma_bits_to_nat_bound(data@.subrange(pos as int, pos + 16));
            vstd::arithmetic::power2::lemma2_to64();
        }
        let id = id as u16;
        match find_types(table, id) {
            None => {
                assert(before + Seq::<(u16, Seq<ValueModel>)>::empty() =~= before);
                return StatePayload { records, error: Some(StateError::MissingEntity(id)) };
            },
            Some(k) => {
                let mut p = pos + 16;
                let ghost types = table@[k as int].1@;
                proof {
                    lemma_decode_values_advances(data@, pos + 16, types);
                }
                match read_values(data, &mut p, &table[k].1) {
                    None => {
                        assert(before + Seq::<(u16, Seq<ValueModel>)>::empty() =~= before);
                        return StatePayload {
                            records,
                            error: Some(StateError::DecodeFailure(id)),
                        };
                    },
                    Some(vals) => {
                        let ghost vs = value_views(vals@);
                        records.push((id, vals));
                        proof {
                            assert(record_views(records@) =~= before.push((id, vs)));
                            let rest = parse_records(data@, p as int, table_view(table@));
                            assert(before + (seq![(id, vs)] + rest.0) =~= before.push((id, vs))
                                + rest.0);
                        }
                        pos = p;
                    },
                }
            },
        }
    }
}

/// Records read so far, followed by what reading the rest gives.
pub open spec fn join(
    before: Seq<(u16, Seq<ValueModel>)>,
    rest: (Seq<(u16, Seq<ValueModel>)>, Option<StateError>),
) -> (Seq<(u16, Seq<ValueModel>)>, Option<StateError>) {
    (before + rest.0, rest.1)
}

/// An id assignment: an entity's id and owner, and the child indices that
/// lead from the scene root to it.
#[derive(Clone, Debug, PartialEq, Eq)]
pub struct IdSync {
    pub id: u16,
    pub owner_id: u16,
    pub path: Vec<u8>,
}

/// The bits of an id-assignment message.
pub open spec fn id_sync_bits(object_id: u16, owner_id: u16, path: Seq<u8>) -> Seq<bool> {
    nat_to_bits(ID_SYNC_MESSAGE_TYPE as nat, 16) + nat_to_bits(object_id as nat, 16) + nat_to_bits(
        owner_id as nat,
        16,
    ) + bytes_to_bits(path)
}

/// Reading the body of an id-assignment message at `pos` (its type field
/// already read): the id, the owner, and a path of as many whole bytes as
/// remain; `None` if the id and owner do not fit.
pub open spec fn parse_id_sync(s: Seq<bool>, pos: int) -> Option<(u16, u16, Seq<u8>, int)> {
    if pos + 32 > s.len() {
        None
    } else {
        let n = ((s.len() - pos - 32) / 8) as nat;
        Some(
            (
                field(s, pos, 16) as u16,
                field(s, pos + 16, 16) as u16,
                bits_to_bytes(s, pos + 32, n),
                pos + 32 + 8 * n,
            ),
        )
    }
}

/// The handler of one application message type.
#[derive(Clone, Copy, Debug, PartialEq, Eq, Structural)]
pub struct MessageHandler {
    pub message_type: u16,
}

impl MessageHandler {
    /// Builds the message that assigns `object_id` (and an owner, zero if
    /// none) to the entity found by following `index_path` from the scene root.
    pub fn create_id_sync_message(object_id: u16, owner_id: Option<u16>, index_path: &Vec<u8>) -> (r:
        Bits)
        requires
            48 + 8 * index_path@.len() <= MAX_BITS,
        ensures
            r@ == id_sync_bits(
                object_id,
                match owner_id {
                    Some(o) => o,
                    None => 0,
                },
                index_path@,
            ),
    {
        let owner = match owner_id {
            Some(o) => o,
            None => 0,
        };
        let mut r = Bits::new();
        proof {
            crate::bits::lemma_nat_to_bits_len(0, 16);
            crate::bits::lemma_nat_to_bits_len(object_id as nat, 16);
            crate::bits::lemma_nat_to_bits_len(owner as nat, 16);
        }
        write_uint(&mut r, ID_SYNC_MESSAGE_TYPE as u64, 16);
        write_uint(&mut r, object_id as u64, 16);
        write_uint(&mut r, owner as u64, 16);
        write_bytes(&mut r, index_path);
        assert(r@ =~= id_sync_bits(object_id, owner, index_path@));
        r
    }

    /// Reads the body of an id-assignment message from `*pointer` on.
    pub fn handle_id_sync_message(message: &Bits, pointer: &mut usize) -> (r: Option<IdSync>)
        requires
            *old(pointer) <= message@.len(),
        ensures
            match parse_id_sync(message@, *old(pointer) as int) {
                Some((id, owner, path, p)) => r is Some && r->Some_0.id == id && r->Some_0.owner_id
                    == owner && r->Some_0.path@ == path && *final(pointer) == p,
                None => r is None && *final(pointer) == *old(pointer),
            },
    {
        let len = message.len();
        let pos = *pointer;
        if len - pos < 32 {
            return None;
        }
        let id = read_uint(message, pos, 16);
        let owner = read_uint(message, pos + 16, 16);
        proof {
            crate::bits::lemma_bits_to_nat_bound(message@.subrange(pos as int, pos + 16));
            crate::bits::lemma_bits_to_nat_bound(message@.subrange(pos + 16, pos + 32));
            vstd::arithmetic::power2::lemma2_to64();
        }
        let n = (len - pos - 32) / 8;
        assert(pos + 32 + 8 * n <= len) by (nonlinear_arith)
            requires
                n == (len - pos - 32) / 8,
                pos + 32 <= len,
        ;
        let path = read_bytes(message, pos + 32, n);
        *pointer = pos + 32 + 8 * n;
        Some(IdSync { id: id as u16, owner_id: owner as u16, path })
    }
}

/// The value type that a code names, if any.
pub open spec fn code_type(c: i64) -> Option<NetworkedValueTypes> {
    if c == -2 {
        Some(NetworkedValueTypes::Nil)
    } else if 0 <= c <= 7 {
        Some(
            if c == 0 {
                NetworkedValueTypes::Bool
            } else if c == 1 {
                NetworkedValueTypes::Unsigned8
            } else if c == 2 {
                NetworkedValueTypes::Unsigned16
            } else if c == 3 {
                NetworkedValueTypes::Signed64
            } else if c == 4 {
                NetworkedValueTypes::Float32
            } else if c == 5 {
                NetworkedValueTypes::Vector3
            } else if c == 6 {
                NetworkedValueTypes::String
            } else {
                NetworkedValueTypes::ByteArray
            },
        )
    } else {
        None
    }
}

/// The value types a list of codes names, up to the first `-1` (the end
/// mark); `None` if a code before it names nothing.
pub open spec fn types_of_codes(codes: Seq<i64>) -> Option<Seq<NetworkedValueTypes>>
    decreases codes.len(),
{
    if codes.len() == 0 || codes[0] == -1 {
        Some(Seq::empty())
    } else {
        match code_type(codes[0]) {
            None => None,
            Some(t) => match types_of_codes(codes.drop_first()) {
                None => None,
                Some(ts) => Some(seq![t] + ts),
            },
        }
    }
}

proof fn lemma_code_type(c: i64, r: Result<NetworkedValueTypes, TypeCodeError>)
    requires
        c != -1,
        c == -1 ==> r == Err::<NetworkedValueTypes, TypeCodeError>(TypeCodeError::Invalid),
        (c < -2 || c > 7) ==> r == Err::<NetworkedValueTypes, TypeCodeError>(
            TypeCodeError::Unknown(c),
        ),
        r is Ok ==> crate::values::type_code(r->Ok_0) == c,
        (c == -2 || 0 <= c <= 7) ==> r is Ok,
    ensures
        match code_type(c) {
            Some(t) => r == Ok::<NetworkedValueTypes, TypeCodeError>(t),
            None => r is Err,
        },
{
}

/// The value types named by `codes`, read up to the first `-1` and at most
/// a thousand of them; the first code that names nothing is the error.
pub fn get_networked_values_types(codes: &Vec<i64>) -> (r: Result<
    Vec<NetworkedValueTypes>,
    TypeCodeError,
>)
    ensures
        match types_of_codes(
            codes@.subrange(
                0,
                if codes@.len() < 1000 {
                    codes@.len() as int
                } else {
                    1000
                },
            ),
        ) {
            Some(ts) => r is Ok && r->Ok_0@ == ts,
            None => r is Err,
        },
{
    let limit: usize = if codes.len() < 1000 {
        codes.len()
    } else {
        1000
    };
    let ghost all = codes@.subrange(0, limit as int);
    let mut out: Vec<NetworkedValueTypes> = Vec::new();
    let mut i: usize = 0;
    assert(all.subrange(0, all.len() as int) =~= all);
    while i < limit
        invariant
            limit == if codes@.len() < 1000 {
                codes@.len() as int
            } else {
                1000
            },
            all == codes@.subrange(0, limit as int),
            i <= limit,
            types_of_codes(all) == match types_of_codes(all.subrange(i as int, limit as int)) {
                None => None,
                Some(ts) => Some(out@ + ts),
            },
        decreases limit - i,
    {
        let ghost rest = all.subrange(i as int, limit as int);
        assert(rest.drop_first() =~= all.subrange(i + 1, limit as int));
        assert(rest[0] == codes@[i as int]);
        let c = codes[i];
        if c == -1 {
            assert(types_of_codes(rest) == Some(Seq::<NetworkedValueTypes>::empty()));
            assert(out@ + Seq::<NetworkedValueTypes>::empty() =~= out@);
            return Ok(out);
        }
        let t = NetworkedValueTypes::try_from(c);
        proof {
            lemma_code_type(c, t);
        }
        match t {
            Err(e) => {
                assert(types_of_codes(rest) is None);
                return Err(e);
            },
            Ok(t) => {
                let ghost before = out@;
                out.push(t);
                proof {
                    match types_of_codes(all.subrange(i + 1, limit as int)) {
                        None => {},
                        Some(ts) => {
                            assert(before + (seq![t] + ts) =~= out@ + ts);
                        },
                    }
                }
            },
        }
        i = i + 1;
    }
    assert(all.subrange(limit as int, limit as int) =~= Seq::<i64>::empty());
    assert(out@ + Seq::<NetworkedValueTypes>::empty() =~= out@);
    Ok(out)
}

/// The type of a value.
pub fn value_type(v: &NetworkedValue) -> (r: NetworkedValueTypes)
    ensures
        r == type_of(v@),
{
    match v {
        NetworkedValue::Nil => NetworkedValueTypes::Nil,
        NetworkedValue::Bool(_) => NetworkedValueTypes::Bool,
        NetworkedValue::Unsigned8(_) => NetworkedValueTypes::Unsigned8,
        NetworkedValue::Unsigned16(_) => NetworkedValueTypes::Unsigned16,
        NetworkedValue::Signed64(_) => NetworkedValueTypes::Signed64,
        NetworkedValue::Float32(_) => NetworkedValueTypes::Float32,
        NetworkedValue::Vector3(_, _, _) => NetworkedValueTypes::Vector3,
        NetworkedValue::String(_) => NetworkedValueTypes::String,
        NetworkedValue::ByteArray(_) => NetworkedValueTypes::ByteArray,
    }
}

/// The number of bits a value takes, for a value that can be written.
fn value_bits(v: &NetworkedValue) -> (r: u64)
    requires
        value_fits(v@),
    ensures
        r == encode_value(v@).len(),
        r < 0x10_0000_0000,
{
    proof {
        crate::values::lemma_encode_len(v@);
    }
    match v {
        NetworkedValue::Nil => 0,
        NetworkedValue::Bool(_) => 1,
        NetworkedValue::Unsigned8(_) => 8,
        NetworkedValue::Unsigned16(_) => 16,
        NetworkedValue::Signed64(_) => 64,
        NetworkedValue::Float32(_) => 32,
        NetworkedValue::Vector3(_, _, _) => 96,
        NetworkedValue::String(b) => 32 + 8 * b.len() as u64,
        NetworkedValue::ByteArray(b) => 32 + 8 * b.len() as u64,
    }
}

/// Whether a value can be written.
fn fits(v: &NetworkedValue) -> (r: bool)
    ensures
        r == value_fits(v@),
{
    match v {
        NetworkedValue::String(b) => (b.len() as u64) < 0x1_0000_0000u64,
        NetworkedValue::ByteArray(b) => (b.len() as u64) < 0x1_0000_0000u64,
        _ => true,
    }
}

proof fn lemma_encode_values_step(vs: Seq<ValueModel>, i: int)
    requires
        0 <= i < vs.len(),
    ensures
        encode_values(vs.subrange(0, i + 1)).len() == encode_values(vs.subrange(0, i)).len()
            + encode_value(vs[i]).len(),
{
    assert(vs.subrange(0, i + 1).drop_last() =~= vs.subrange(0, i));
}

/// A message is well-formed: one type code per value, each naming that
/// value's type, each value writable, and the whole within a buffer.
pub open spec fn message_ok(values: Seq<ValueModel>, codes: Seq<i64>) -> bool {
    &&& values.len() == codes.len()
    &&& forall|i: int|
        0 <= i < values.len() ==> code_type(#[trigger] codes[i]) == Some(type_of(values[i]))
            && value_fits(values[i])
    &&& 16 + encode_values(values).len() <= MAX_BITS
}

/// Builds an application message: its 16-bit type, then each value as its
/// code says. `None` when the message is not well-formed.
pub fn encode_message(message_type: u16, values: &Vec<NetworkedValue>, type_codes: &Vec<i64>) -> (r:
    Option<Bits>)
    ensures
        r is Some <==> message_ok(value_views(values@), type_codes@),
        r is Some ==> r->Some_0@ == nat_to_bits(message_type as nat, 16) + encode_values(
            value_views(values@),
        ),
{
    if values.len() != type_codes.len() {
        return None;
    }
    let ghost vs = value_views(values@);
    let mut total: u128 = 16;
    let mut i: usize = 0;
    while i < values.len()
        invariant
            i <= values@.len() == type_codes@.len(),
            vs == value_views(values@),
            total == 16 + encode_values(vs.subrange(0, i as int)).len(),
            total <= 16 + i * 0x10_0000_0000u128,
            forall|k: int|
                0 <= k < i ==> code_type(#[trigger] type_codes@[k]) == Some(type_of(vs[k]))
                    && value_fits(vs[k]),
        decreases values@.len() - i,
    {
        let t = NetworkedValueTypes::try_from(type_codes[i]);
        let c = type_codes[i];
        proof {
            if c != -1 {
                lemma_code_type(c, t);
            }
        }
        match t {
            Err(_) => {
                return None;
            },
            Ok(t) => {
                if t != value_type(&values[i]) || !fits(&values[i]) {
                    return None;
                }
            },
        }
        proof {
            lemma_encode_values_step(vs, i as int);
        }
        let b = value_bits(&values[i]);
        assert(16 + i * 0x10_0000_0000u128 + b <= 16 + (i + 1) * 0x10_0000_0000u128) by (
        nonlinear_arith)
            requires
                b < 0x10_0000_0000,
        ;
        total = total + b as u128;
        i = i + 1;
    }
    assert forall|k: int| 0 <= k < values@.len() implies value_fits(#[trigger] values@[k]@) by {
        assert(code_type(type_codes@[k]) == Some(type_of(vs[k])));
        assert(vs[k] == values@[k]@);
    }
    assert(vs.subrange(0, values@.len() as int) =~= vs);
    if total > MAX_BITS as u128 {
        return None;
    }
    let node = NetworkedNode { objectid: message_type, owner_id: 0 };
    let types = message_types(values);
    Some(node.get_byte_data(values, &types))
}

/// The type of each value.
fn message_types(values: &Vec<NetworkedValue>) -> (r: Vec<NetworkedValueTypes>)
    ensures
        r@.len() == values@.len(),
        forall|i: int| 0 <= i < values@.len() ==> #[trigger] r@[i] == type_of(values@[i]@),
{
    let mut r: Vec<NetworkedValueTypes> = Vec::new();
    let mut i: usize = 0;
    while i < values.len()
        invariant
            i <= values@.len(),
            r@.len() == i,
            forall|k: int| 0 <= k < i ==> #[trigger] r@[k] == type_of(values@[k]@),
        decreases values@.len() - i,
    {
        r.push(value_type(&values[i]));
        i = i + 1;
    }
    r
}

/// Appends the bits of `src`.
pub fn append_bits(dst: &mut Bits, src: &Bits)
    requires
        old(dst)@.len() + src@.len() <= MAX_BITS,
    ensures
        final(dst)@ == old(dst)@ + src@,
{
    let n = src.len();
    let mut i: usize = 0;
    while i < n
        invariant
            n == src@.len(),
            i <= n,
            old(dst)@.len() + n <= MAX_BITS,
            dst@ == old(dst)@ + src@.subrange(0, i as int),
        decreases n - i,
    {
        dst.push(src.get(i));
        i = i + 1;
        assert(dst@ =~= old(dst)@ + src@.subrange(0, i as int));
    }
    assert(src@.subrange(0, n as int) =~= src@);
}

/// The listed records, one after another.
pub open spec fn joined_records(records: Seq<Bits>, order: Seq<usize>) -> Seq<bool>
    decreases order.len(),
{
    if order.len() == 0 {
        Seq::empty()
    } else {
        joined_records(records, order.drop_last()) + records[order.last() as int]@
    }
}

/// The payload of a state or sync packet: the 64-bit stamp, then the
/// listed entity records in order, packed into bytes.
pub fn build_state_payload(stamp: u64, records: &Vec<Bits>, order: &Vec<usize>) -> (r: Vec<u8>)
    requires
        forall|k: int| 0 <= k < order@.len() ==> #[trigger] order@[k] < records@.len(),
        64 + joined_records(records@, order@).len() <= MAX_BITS,
    ensures
        r@ == crate::bits::pack_bits(nat_to_bits(stamp as nat, 64) + joined_records(
            records@,
            order@,
        )),
{
    let mut b = Bits::new();
    write_uint(&mut b, stamp, 64);
    let ghost head = b@;
    proof {
        crate::bits::lemma_nat_to_bits_len(stamp as nat, 64);
        assert(order@.subrange(0, 0) =~= Seq::<usize>::empty());
        assert(head + joined_records(records@, Seq::<usize>::empty()) =~= head);
    }
    let mut k: usize = 0;
    while k < order.len()
        invariant
            k <= order@.len(),
            head == nat_to_bits(stamp as nat, 64),
            head.len() == 64,
            forall|j: int| 0 <= j < order@.len() ==> #[trigger] order@[j] < records@.len(),
            64 + joined_records(records@, order@).len() <= MAX_BITS,
            b@ == head + joined_records(records@, order@.subrange(0, k as int)),
        decreases order@.len() - k,
    {
        proof {
            assert(order@.subrange(0, k + 1).drop_last() =~= order@.subrange(0, k as int));
            lemma_joined_prefix(records@, order@, k + 1);
        }
        append_bits(&mut b, &records[order[k]]);
        k = k + 1;
        assert(b@ =~= head + joined_records(records@, order@.subrange(0, k as int)));
    }
    assert(order@.subrange(0, order@.len() as int) =~= order@);
    crate::bits::to_bytes(&b)
}

pub proof fn lemma_joined_prefix(records: Seq<Bits>, order: Seq<usize>, k: int)
    requires
        0 <= k <= order.len(),
    ensures
        joined_records(records, order.subrange(0, k)).len() <= joined_records(records, order).len(),
    decreases order.len() - k,
{
    if k < order.len() {
        lemma_joined_prefix(records, order, k + 1);
        assert(order.subrange(0, k + 1).drop_last() =~= order.subrange(0, k));
    } else {
        assert(order.subrange(0, k) =~= order);
    }
}

/// Hands out entity ids on a server: one, two, and so on; zero stays the
/// mark of an entity without an id.
pub struct ObjectIds {
    next_id: u16,
}

impl View for ObjectIds {
    type V = u16;

    closed spec fn view(&self) -> u16 {
        self.next_id
    }
}

impl ObjectIds {
    pub fn new() -> (r: ObjectIds)
        ensures
            r@ == 0,
    {
        ObjectIds { next_id: 0 }
    }

    /// The next unused id; `None` once all are used.
    pub fn get_next_object_id(&mut self) -> (r: Option<u16>)
        ensures
            old(self)@ < u16::MAX ==> r == Some((old(self)@ + 1) as u16) && final(self)@ == old(
                self,
            )@ + 1,
            old(self)@ == u16::MAX ==> r is None && final(self)@ == old(self)@,
    {
        if self.next_id == u16::MAX {
            return None;
        }
        self.next_id = self.next_id + 1;
        Some(self.next_id)
    }

    /// Starts over, as when every entity is unregistered.
    pub fn unregister_all(&mut self)
        ensures
            final(self)@ == 0,
    {
        self.next_id = 0;
    }
}

} // verus!
