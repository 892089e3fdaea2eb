use crate::codec::{
    parse_var_buffer, parse_var_string, parse_var_u64, read_var_buffer, read_var_string,
    read_var_u64, var_buffer_bytes, var_string_bytes, var_u64_bytes, write_var_buffer,
    write_var_string, write_var_u64, DecodeError,
};
use std::collections::HashMap;
use vstd::std_specs::iter::IteratorSpec;
use vstd::prelude::*;
use vstd::utf8::encode_utf8;

verus! {

// ---------------------------------------------------------------------------
// Document sync messages
// ---------------------------------------------------------------------------

/// A document sync message.
#[derive(Debug, Clone, PartialEq)]
pub enum DocMessage {
    /// A state vector.
    Step1(Vec<u8>),
    /// An update that answers a state vector.
    Step2(Vec<u8>),
    /// An update.
    Update(Vec<u8>),
}

const DOC_MESSAGE_STEP1: u64 = 0;

const DOC_MESSAGE_STEP2: u64 = 1;

const DOC_MESSAGE_UPDATE: u64 = 2;

impl DocMessage {
    /// The tag that starts the message's encoding.
    pub open spec fn tag(&self) -> u64 {
        match self {
            DocMessage::Step1(_) => 0,
            DocMessage::Step2(_) => 1,
            DocMessage::Update(_) => 2,
        }
    }

    /// The bytes that the message carries.
    pub open spec fn payload(&self) -> Seq<u8> {
        match self {
            DocMessage::Step1(v) => v@,
            DocMessage::Step2(v) => v@,
            DocMessage::Update(v) => v@,
        }
    }
}

/// The encoding of a document message: its tag, then its bytes as a buffer.
pub open spec fn doc_message_bytes(tag: u64, payload: Seq<u8>) -> Seq<u8> {
    var_u64_bytes(tag as nat) + var_buffer_bytes(payload)
}

/// What reading a document message from `s` gives: the bytes after it, the
/// message's tag and its bytes.
pub open spec fn parse_doc_message(s: Seq<u8>) -> Result<(Seq<u8>, u64, Seq<u8>), DecodeError> {
    match parse_var_u64(s) {
        Err(e) => Err(e),
        Ok((tail, tag)) => if tag <= 2 {
            match parse_var_buffer(tail) {
                Err(e) => Err(e),
                Ok((rest, data)) => Ok((rest, tag, data)),
            }
        } else {
            Err(DecodeError::UnknownTag)
        },
    }
}

/// Reads a document message from the front of `input`, and returns the bytes
/// after it with the message.
pub fn read_doc_message(input: &[u8]) -> (r: Result<(&[u8], DocMessage), DecodeError>)
    ensures
        match r {
            Ok((tail, msg)) => parse_doc_message(input@) == Ok::<
                (Seq<u8>, u64, Seq<u8>),
                DecodeError,
            >((tail@, msg.tag(), msg.payload())),
            Err(e) => parse_doc_message(input@) == Err::<(Seq<u8>, u64, Seq<u8>), DecodeError>(e),
        },
        r matches Ok((_, msg)) ==> {
            &&& input@.len() > 0
            &&& input@[0] == 0u8 ==> msg is Step1
            &&& input@[0] == 1u8 ==> msg is Step2
            &&& input@[0] == 2u8 ==> msg is Update
        },
        input@.len() > 0 && 3 <= input@[0] < 128 ==> r == Err::<(&[u8], DocMessage), DecodeError>(
            DecodeError::UnknownTag,
        ),
{
    proof {
        if input@.len() > 0 && input@[0] < 128 {
            crate::codec::lemma_var_u64_one_byte(input@);
        }
    }
    let (tail, step) = read_var_u64(input)?;
    if step == DOC_MESSAGE_STEP1 {
        let (tail, sv) = read_var_buffer(tail)?;
        Ok((tail, DocMessage::Step1(vstd::slice::slice_to_vec(sv))))
    } else if step == DOC_MESSAGE_STEP2 {
        let (tail, update) = read_var_buffer(tail)?;
        Ok((tail, DocMessage::Step2(vstd::slice::slice_to_vec(update))))
    } else if step == DOC_MESSAGE_UPDATE {
        let (tail, update) = read_var_buffer(tail)?;
        Ok((tail, DocMessage::Update(vstd::slice::slice_to_vec(update))))
    } else {
        Err(DecodeError::UnknownTag)
    }
}

/// Appends the encoding of `msg` to `buffer`.
pub fn write_doc_message(buffer: &mut Vec<u8>, msg: &DocMessage)
    ensures
        final(buffer)@ == old(buffer)@ + doc_message_bytes(msg.tag(), msg.payload()),
        final(buffer)@.len() > old(buffer)@.len(),
        msg is Step1 ==> final(buffer)@[old(buffer)@.len() as int] == 0u8,
        msg is Step2 ==> final(buffer)@[old(buffer)@.len() as int] == 1u8,
        msg is Update ==> final(buffer)@[old(buffer)@.len() as int] == 2u8,
{
    let ghost b = buffer@;
    proof {
        crate::codec::lemma_var_u64_bytes_short(msg.tag());
    }
    match msg {
        DocMessage::Step1(sv) => {
            write_var_u64(buffer, DOC_MESSAGE_STEP1);
            write_var_buffer(buffer, sv.as_slice());
        },
        DocMessage::Step2(update) => {
            write_var_u64(buffer, DOC_MESSAGE_STEP2);
            write_var_buffer(buffer, update.as_slice());
        },
        DocMessage::Update(update) => {
            write_var_u64(buffer, DOC_MESSAGE_UPDATE);
            write_var_buffer(buffer, update.as_slice());
        },
    }
    assert(buffer@ =~= b + doc_message_bytes(msg.tag(), msg.payload()));
}

/// Reading a written document message gives back its tag, its bytes and the
/// bytes after it.
pub proof fn lemma_doc_message_roundtrip(msg: DocMessage, rest: Seq<u8>)
    requires
        msg.payload().len() <= u64::MAX,
    ensures
        parse_doc_message(doc_message_bytes(msg.tag(), msg.payload()) + rest) == Ok::<
            (Seq<u8>, u64, Seq<u8>),
            DecodeError,
        >((rest, msg.tag(), msg.payload())),
{
    let p = msg.payload();
    crate::codec::lemma_var_u64_roundtrip(msg.tag(), var_buffer_bytes(p) + rest);
    crate::codec::lemma_var_buffer_roundtrip(p, rest);
    assert(doc_message_bytes(msg.tag(), p) + rest =~= var_u64_bytes(msg.tag() as nat) + (
    var_buffer_bytes(p) + rest));
}


// ---------------------------------------------------------------------------
// Awareness
// ---------------------------------------------------------------------------

/// The text that marks a deleted state.
pub open spec fn null_text() -> Seq<char> {
    seq!['n', 'u', 'l', 'l']
}

fn null_string() -> (s: String)
    ensures
        s@ == null_text(),
{
    let s = String::from_str("null");
    proof {
        reveal_strlit("null");
    }
    s
}

/// The state that a client shares with its peers: a clock that grows with
/// each change, and the content, usually JSON.
#[derive(Debug, Clone, PartialEq)]
pub struct AwarenessState {
    pub(crate) clock: u64,
    pub(crate) content: String,
}

impl View for AwarenessState {
    /// The clock and the content's characters.
    type V = (u64, Seq<char>);

    closed spec fn view(&self) -> (u64, Seq<char>) {
        (self.clock, self.content@)
    }
}

impl AwarenessState {
    /// A state with the given clock and content.
    pub fn new(clock: u64, content: String) -> (s: Self)
        ensures
            s@ == (clock, content@),
    {
        AwarenessState { clock, content }
    }

    /// The clock.
    pub fn clock(&self) -> (c: u64)
        ensures
            c == self@.0,
    {
        self.clock
    }

    /// The content.
    pub fn content(&self) -> (c: &str)
        ensures
            c@ == self@.1,
    {
        self.content.as_str()
    }

    /// Whether the content is the deletion mark `null`.
    pub fn is_deleted(&self) -> (b: bool)
        ensures
            b == (self@.1 == null_text()),
    {
        let null = null_string();
        self.content == null
    }

    /// Advances the clock by one.
    pub(crate) fn add_clock(&mut self)
        requires
            old(self)@.0 < u64::MAX,
        ensures
            final(self)@ == ((old(self)@.0 + 1) as u64, old(self)@.1),
    {
        self.clock += 1;
    }

    /// Sets the clock.
    pub(crate) fn set_clock(&mut self, clock: u64)
        ensures
            final(self)@ == (clock, old(self)@.1),
    {
        self.clock = clock;
    }

    /// Replaces the content and advances the clock by one.
    pub fn set_content(&mut self, content: String)
        requires
            old(self)@.0 < u64::MAX,
        ensures
            final(self)@ == ((old(self)@.0 + 1) as u64, content@),
    {
        self.add_clock();
        self.content = content;
    }

    /// Marks the state deleted: its content becomes `null` and the clock
    /// advances by one.
    pub fn delete(&mut self)
        requires
            old(self)@.0 < u64::MAX,
        ensures
            final(self)@ == ((old(self)@.0 + 1) as u64, null_text()),
    {
        self.set_content(null_string());
    }
}

impl Default for AwarenessState {
    /// Clock 0, deleted.
    fn default() -> (s: Self)
        ensures
            s@ == (0u64, null_text()),
    {
        AwarenessState { clock: 0, content: null_string() }
    }
}

/// The encoding of one client's state: the client id, the clock, then the
/// content as a string.
pub open spec fn awareness_state_bytes(client_id: u64, state: (u64, Seq<char>)) -> Seq<u8> {
    var_u64_bytes(client_id as nat) + var_u64_bytes(state.0 as nat) + var_string_bytes(state.1)
}

/// What reading one client's state from `s` gives: the bytes after it, the
/// client id and the state.
pub open spec fn parse_awareness_state(s: Seq<u8>) -> Result<
    (Seq<u8>, u64, (u64, Seq<char>)),
    DecodeError,
> {
    match parse_var_u64(s) {
        Err(e) => Err(e),
        Ok((t1, client_id)) => match parse_var_u64(t1) {
            Err(e) => Err(e),
            Ok((t2, clock)) => match parse_var_string(t2) {
                Err(e) => Err(e),
                Ok((t3, content)) => Ok((t3, client_id, (clock, content))),
            },
        },
    }
}

fn read_awareness_state(input: &[u8]) -> (r: Result<(&[u8], (u64, AwarenessState)), DecodeError>)
    ensures
        match r {
            Ok((tail, (client_id, state))) => parse_awareness_state(input@) == Ok::<
                (Seq<u8>, u64, (u64, Seq<char>)),
                DecodeError,
            >((tail@, client_id, state@)),
            Err(e) => parse_awareness_state(input@) == Err::<
                (Seq<u8>, u64, (u64, Seq<char>)),
                DecodeError,
            >(e),
        },
{
    let (tail, client_id) = read_var_u64(input)?;
    let (tail, clock) = read_var_u64(tail)?;
    let (tail, content) = read_var_string(tail)?;
    Ok((tail, (client_id, AwarenessState { clock, content })))
}

fn write_awareness_state(buffer: &mut Vec<u8>, client_id: u64, state: &AwarenessState)
    ensures
        final(buffer)@ == old(buffer)@ + awareness_state_bytes(client_id, state@),
{
    let ghost b = buffer@;
    write_var_u64(buffer, client_id);
    write_var_u64(buffer, state.clock);
    write_var_string(buffer, state.content.as_str());
    assert(buffer@ =~= b + awareness_state_bytes(client_id, state@));
}

/// The states of all clients, by client id.
pub type AwarenessStates = HashMap<u64, AwarenessState>;

/// An awareness message: the states of all clients.
#[derive(Debug, PartialEq)]
pub struct AwarenessMessage {
    clients: AwarenessStates,
}

/// The encoding of the states of the clients `keys`, in that order.
pub open spec fn awareness_entries_bytes(keys: Seq<u64>, m: Map<u64, AwarenessState>) -> Seq<u8>
    decreases keys.len(),
{
    if keys.len() == 0 {
        seq![]
    } else {
        awareness_state_bytes(keys[0], m[keys[0]]@) + awareness_entries_bytes(keys.drop_first(), m)
    }
}

proof fn lemma_entries_bytes_push(keys: Seq<u64>, k: u64, m: Map<u64, AwarenessState>)
    ensures
        awareness_entries_bytes(keys.push(k), m) == awareness_entries_bytes(keys, m)
            + awareness_state_bytes(k, m[k]@),
    decreases keys.len(),
{
    if keys.len() == 0 {
        assert(keys.push(k).drop_first() =~= Seq::<u64>::empty());
        assert(keys.push(k)[0] == k);
        assert(awareness_entries_bytes(Seq::<u64>::empty(), m) == Seq::<u8>::empty());
        assert(awareness_entries_bytes(keys.push(k), m) =~= awareness_state_bytes(k, m[k]@));
    } else {
        assert(keys.push(k).drop_first() =~= keys.drop_first().push(k));
        assert(keys.push(k)[0] == keys[0]);
        lemma_entries_bytes_push(keys.drop_first(), k, m);
        assert(awareness_entries_bytes(keys.push(k), m) =~= awareness_entries_bytes(keys, m)
            + awareness_state_bytes(k, m[k]@));
    }
}

/// `keys` lists each client of `m` once.
pub open spec fn awareness_order(keys: Seq<u64>, m: Map<u64, AwarenessState>) -> bool {
    &&& keys.no_duplicates()
    &&& keys.to_set() == m.dom()
    &&& keys.len() == m.len()
}

/// The encoding of all client states, taken in the order `keys`: their
/// number, then each state.
pub open spec fn awareness_bytes(keys: Seq<u64>, m: Map<u64, AwarenessState>) -> Seq<u8> {
    var_u64_bytes(m.len()) + awareness_entries_bytes(keys, m)
}

/// Appends the encoding of all client states to `buffer`: their number,
/// then each client's state, in the order in which the map hands them out.
pub fn write_awareness(buffer: &mut Vec<u8>, clients: &AwarenessStates)
    ensures
        exists|keys: Seq<u64>|
            awareness_order(keys, clients@) && final(buffer)@ == old(buffer)@ + awareness_bytes(
                keys,
                clients@,
            ),
{
    write_var_u64(buffer, clients.len() as u64);
    let ghost b = buffer@;
    let ghost mut keys: Seq<u64> = seq![];
    let ghost v = vstd::std_specs::hash::spec_hash_map_iter(clients).remaining();
    for (client_id, state) in it: clients.iter()
        invariant
            buffer@ == b + awareness_entries_bytes(keys, clients@),
            keys.len() == it.index(),
            forall|i: int| 0 <= i < it.index() ==> keys[i] == *(#[trigger] v[i]).0,
            it.seq() == v,
    {
        proof {
            assert(clients@.contains_key(*client_id));
        }
        write_awareness_state(buffer, *client_id, state);
        proof {
            lemma_entries_bytes_push(keys, *client_id, clients@);
            keys = keys.push(*client_id);
        }
    }
    proof {
        assert(keys.len() == v.len());
        assert forall|i: int, j: int| 0 <= i < j < keys.len() implies keys[i] != keys[j] by {
            if keys[i] == keys[j] {
                assert(clients@.contains_key(*v[i].0));
                assert(clients@.contains_key(*v[j].0));
                assert(clients@[*v[i].0] == *v[i].1);
                assert(clients@[*v[j].0] == *v[j].1);
                assert(v[i] == v[j]);
                assert(v.no_duplicates());
            }
        }
        assert forall|k: u64| #[trigger] keys.to_set().contains(k) <==> clients@.dom().contains(k) by {
            if clients@.dom().contains(k) {
                assert(v.contains((&k, &clients@[k])));
                let i = choose|i: int| 0 <= i < v.len() && v[i] == (&k, &clients@[k]);
                assert(keys[i] == k);
            }
            if keys.to_set().contains(k) {
                let i = choose|i: int| 0 <= i < keys.len() && keys[i] == k;
                assert(keys[i] == *v[i].0);
            }
        }
        assert(keys.to_set() =~= clients@.dom());
        assert(buffer@ =~= old(buffer)@ + awareness_bytes(keys, clients@));
        assert(awareness_order(keys, clients@));
    }
}


/// The states that reading `count` client states from `s` gives, in order,
/// with the bytes after them.
pub open spec fn parse_awareness_entries(s: Seq<u8>, count: nat) -> Result<
    (Seq<u8>, Seq<(u64, (u64, Seq<char>))>),
    DecodeError,
>
    decreases count,
{
    if count == 0 {
        Ok((s, seq![]))
    } else {
        match parse_awareness_state(s) {
            Err(e) => Err(e),
            Ok((tail, client_id, state)) => match parse_awareness_entries(tail, (count - 1) as nat) {
                Err(e) => Err(e),
                Ok((rest, more)) => Ok((rest, seq![(client_id, state)] + more)),
            },
        }
    }
}

/// The map that the entries `es` give when they are inserted in order, a
/// later entry for a client replacing an earlier one.
pub open spec fn entries_map(es: Seq<(u64, (u64, Seq<char>))>) -> Map<u64, (u64, Seq<char>)>
    decreases es.len(),
{
    if es.len() == 0 {
        Map::empty()
    } else {
        entries_map(es.drop_last()).insert(es.last().0, es.last().1)
    }
}

/// The client states of `m`, each taken by its view.
pub open spec fn states_view(m: Map<u64, AwarenessState>) -> Map<u64, (u64, Seq<char>)> {
    m.map_values(|st: AwarenessState| st@)
}

/// What reading all client states from `s` gives: the bytes after them and
/// the states by client id.
pub open spec fn parse_awareness(s: Seq<u8>) -> Result<
    (Seq<u8>, Map<u64, (u64, Seq<char>)>),
    DecodeError,
> {
    match parse_var_u64(s) {
        Err(e) => Err(e),
        Ok((tail, count)) => match parse_awareness_entries(tail, count as nat) {
            Err(e) => Err(e),
            Ok((rest, es)) => Ok((rest, entries_map(es))),
        },
    }
}

/// Reads the states of all clients from the front of `input`: their number,
/// then each client's state. A later state for a client replaces an earlier
/// one.
pub fn read_awareness(input: &[u8]) -> (r: Result<(&[u8], AwarenessStates), DecodeError>)
    ensures
        match r {
            Ok((tail, states)) => parse_awareness(input@) == Ok::<
                (Seq<u8>, Map<u64, (u64, Seq<char>)>),
                DecodeError,
            >((tail@, states_view(states@))),
            Err(e) => parse_awareness(input@) == Err::<
                (Seq<u8>, Map<u64, (u64, Seq<char>)>),
                DecodeError,
            >(e),
        },
{
    let (mut tail, len) = read_var_u64(input)?;
    let ghost t0 = tail@;
    let mut states: AwarenessStates = HashMap::new();
    let ghost mut es: Seq<(u64, (u64, Seq<char>))> = seq![];
    let mut i: u64 = 0;
    proof {
        assert(states_view(states@) =~= entries_map(es));
        match parse_awareness_entries(t0, len as nat) {
            Ok((rest, more)) => {
                assert(es + more =~= more);
            },
            Err(_) => {},
        }
    }
    while i < len
        invariant
            i <= len,
            parse_var_u64(input@) == Ok::<(Seq<u8>, u64), DecodeError>((t0, len)),
            states_view(states@) == entries_map(es),
            match parse_awareness_entries(tail@, (len - i) as nat) {
                Ok((rest, more)) => parse_awareness_entries(t0, len as nat) == Ok::<
                    (Seq<u8>, Seq<(u64, (u64, Seq<char>))>),
                    DecodeError,
                >((rest, es + more)),
                Err(e) => parse_awareness_entries(t0, len as nat) == Err::<
                    (Seq<u8>, Seq<(u64, (u64, Seq<char>))>),
                    DecodeError,
                >(e),
            },
        decreases len - i,
    {
        let (t, (client_id, state)) = read_awareness_state(tail)?;
        let ghost st = state@;
        let ghost old_states = states@;
        let ghost old_es = es;
        states.insert(client_id, state);
        tail = t;
        i += 1;
        proof {
            es = es.push((client_id, st));
            assert(es.drop_last() =~= old_es);
            assert(states_view(states@) =~= states_view(old_states).insert(client_id, st));
            match parse_awareness_entries(tail@, (len - i) as nat) {
                Ok((rest, more)) => {
                    assert(old_es + (seq![(client_id, st)] + more) =~= es + more);
                },
                Err(_) => {},
            }
        }
    }
    proof {
        assert(parse_awareness_entries(tail@, 0) == Ok::<
            (Seq<u8>, Seq<(u64, (u64, Seq<char>))>),
            DecodeError,
        >((tail@, seq![])));
        assert(es + seq![] =~= es);
    }
    Ok((tail, states))
}

// ---------------------------------------------------------------------------
// Sync messages
// ---------------------------------------------------------------------------

/// The tag of a sync message that carries a document message.
pub const MESSAGE_SYNC: u64 = 0;

/// The tag of a sync message that carries awareness states.
pub const MESSAGE_AWARENESS: u64 = 1;

/// The sync message that carries `update` as a document update: the sync
/// tag, then the document message.
pub fn encode_update_as_message(update: Vec<u8>) -> (r: Vec<u8>)
    ensures
        r@ == var_u64_bytes(MESSAGE_SYNC as nat) + doc_message_bytes(2, update@),
{
    let mut buffer: Vec<u8> = Vec::new();
    write_var_u64(&mut buffer, MESSAGE_SYNC);
    let msg = DocMessage::Update(update);
    write_doc_message(&mut buffer, &msg);
    assert(buffer@ =~= var_u64_bytes(MESSAGE_SYNC as nat) + doc_message_bytes(
        2,
        msg.payload(),
    ));
    buffer
}

/// The sync message that carries the client states `awareness`: the
/// awareness tag, then their encoding as a length-prefixed buffer.
pub fn encode_awareness_as_message(awareness: AwarenessStates) -> (r: Vec<u8>)
    ensures
        exists|keys: Seq<u64>|
            awareness_order(keys, awareness@) && r@ == var_u64_bytes(MESSAGE_AWARENESS as nat)
                + var_buffer_bytes(awareness_bytes(keys, awareness@)),
{
    let mut update: Vec<u8> = Vec::new();
    write_awareness(&mut update, &awareness);
    let mut buffer: Vec<u8> = Vec::new();
    write_var_u64(&mut buffer, MESSAGE_AWARENESS);
    write_var_buffer(&mut buffer, update.as_slice());
    proof {
        let keys = choose|keys: Seq<u64>|
            awareness_order(keys, awareness@) && update@ == Seq::<u8>::empty() + awareness_bytes(
                keys,
                awareness@,
            );
        assert(update@ =~= awareness_bytes(keys, awareness@));
        assert(buffer@ =~= var_u64_bytes(MESSAGE_AWARENESS as nat) + var_buffer_bytes(
            awareness_bytes(keys, awareness@),
        ));
    }
    buffer
}


/// The entries that the states of the clients `keys` give, in that order.
pub open spec fn entries_of(keys: Seq<u64>, m: Map<u64, AwarenessState>) -> Seq<
    (u64, (u64, Seq<char>)),
> {
    keys.map_values(|k: u64| (k, m[k]@))
}

proof fn lemma_state_roundtrip(client_id: u64, state: (u64, Seq<char>), rest: Seq<u8>)
    requires
        encode_utf8(state.1).len() <= u64::MAX,
    ensures
        parse_awareness_state(awareness_state_bytes(client_id, state) + rest) == Ok::<
            (Seq<u8>, u64, (u64, Seq<char>)),
            DecodeError,
        >((rest, client_id, state)),
{
    let b2 = var_u64_bytes(state.0 as nat);
    let b3 = var_string_bytes(state.1);
    crate::codec::lemma_var_u64_roundtrip(client_id, b2 + b3 + rest);
    crate::codec::lemma_var_u64_roundtrip(state.0, b3 + rest);
    crate::codec::lemma_var_string_roundtrip(state.1, rest);
    assert(awareness_state_bytes(client_id, state) + rest =~= var_u64_bytes(client_id as nat) + (b2
        + b3 + rest));
    assert(b2 + b3 + rest =~= b2 + (b3 + rest));
}

proof fn lemma_entries_roundtrip(keys: Seq<u64>, m: Map<u64, AwarenessState>, rest: Seq<u8>)
    requires
        forall|i: int| 0 <= i < keys.len() ==> encode_utf8(m[#[trigger] keys[i]]@.1).len() <= u64::MAX,
    ensures
        parse_awareness_entries(awareness_entries_bytes(keys, m) + rest, keys.len()) == Ok::<
            (Seq<u8>, Seq<(u64, (u64, Seq<char>))>),
            DecodeError,
        >((rest, entries_of(keys, m))),
    decreases keys.len(),
{
    if keys.len() == 0 {
        assert(awareness_entries_bytes(keys, m) + rest =~= rest);
        assert(entries_of(keys, m) =~= Seq::<(u64, (u64, Seq<char>))>::empty());
    } else {
        let k = keys[0];
        let t = keys.drop_first();
        assert forall|i: int| 0 <= i < t.len() implies encode_utf8(m[#[trigger] t[i]]@.1).len()
            <= u64::MAX by {
            assert(t[i] == keys[i + 1]);
        }
        lemma_entries_roundtrip(t, m, rest);
        lemma_state_roundtrip(k, m[k]@, awareness_entries_bytes(t, m) + rest);
        assert(awareness_entries_bytes(keys, m) + rest =~= awareness_state_bytes(k, m[k]@) + (
        awareness_entries_bytes(t, m) + rest));
        assert(entries_of(keys, m) =~= seq![(k, m[k]@)] + entries_of(t, m));
    }
}

proof fn lemma_entries_map(keys: Seq<u64>, m: Map<u64, AwarenessState>)
    requires
        keys.no_duplicates(),
        forall|i: int| 0 <= i < keys.len() ==> m.contains_key(#[trigger] keys[i]),
    ensures
        entries_map(entries_of(keys, m)) == states_view(m).restrict(keys.to_set()),
    decreases keys.len(),
{
    let es = entries_of(keys, m);
    if keys.len() == 0 {
        assert(states_view(m).restrict(keys.to_set()) =~= Map::empty());
    } else {
        let t = keys.drop_last();
        let k = keys.last();
        assert(t.no_duplicates()) by {
            assert forall|i: int, j: int| 0 <= i < j < t.len() implies t[i] != t[j] by {
                assert(t[i] == keys[i] && t[j] == keys[j]);
            }
        }
        assert forall|i: int| 0 <= i < t.len() implies m.contains_key(#[trigger] t[i]) by {
            assert(t[i] == keys[i]);
        }
        lemma_entries_map(t, m);
        assert(es.drop_last() =~= entries_of(t, m));
        assert(m.contains_key(k));
        assert(es.last() == (k, m[k]@));
        assert forall|x: u64| #[trigger] keys.to_set().contains(x) <==> (t.to_set().contains(x)
            || x == k) by {
            if keys.to_set().contains(x) {
                let i = choose|i: int| 0 <= i < keys.len() && keys[i] == x;
                if i < t.len() {
                    assert(t[i] == x);
                }
            }
            if t.to_set().contains(x) {
                let i = choose|i: int| 0 <= i < t.len() && t[i] == x;
                assert(keys[i] == x);
            }
            if x == k {
                assert(keys[keys.len() - 1] == x);
            }
        }
        assert(entries_map(es) =~= states_view(m).restrict(keys.to_set()));
    }
}

/// Reading the written states of all clients gives back each client's
/// state, whatever order the writer took them in, and the bytes after them.
pub proof fn lemma_awareness_roundtrip(keys: Seq<u64>, m: Map<u64, AwarenessState>, rest: Seq<u8>)
    requires
        awareness_order(keys, m),
        m.len() <= u64::MAX,
        forall|k: u64| m.contains_key(k) ==> encode_utf8(#[trigger] m[k]@.1).len() <= u64::MAX,
    ensures
        parse_awareness(awareness_bytes(keys, m) + rest) == Ok::<
            (Seq<u8>, Map<u64, (u64, Seq<char>)>),
            DecodeError,
        >((rest, states_view(m))),
{
    assert forall|i: int| 0 <= i < keys.len() implies m.contains_key(#[trigger] keys[i]) by {
        assert(keys.to_set().contains(keys[i]));
    }
    lemma_entries_roundtrip(keys, m, rest);
    crate::codec::lemma_var_u64_roundtrip(m.len() as u64, awareness_entries_bytes(keys, m) + rest);
    assert(awareness_bytes(keys, m) + rest =~= var_u64_bytes(m.len()) + (awareness_entries_bytes(
        keys,
        m,
    ) + rest));
    lemma_entries_map(keys, m);
    assert(states_view(m).restrict(keys.to_set()) =~= states_view(m));
}

} // verus!
