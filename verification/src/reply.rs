//! Replies of the store to a read of several streams.
//!
//! A reply lists the streams with news; of each its name and its entries; of each
//! entry its id and a list in which field names and values take turns.

use crate::text::same_text;
use vstd::prelude::*;

verus! {

/// A reply, as far as it is read.
#[derive(Debug)]
pub enum Reply {
    /// Bytes.
    Data(Vec<u8>),
    /// A list.
    Bulk(Vec<Reply>),
    /// Anything else.
    Other,
}

/// What a reply says.
pub enum Said {
    /// Bytes.
    Data(Seq<u8>),
    /// A list.
    Bulk(Seq<Said>),
    /// Anything else.
    Other,
}

/// What a reply says.
pub open spec fn said(r: Reply) -> Said
    decreases r,
{
    match r {
        Reply::Data(b) => Said::Data(b@),
        Reply::Bulk(v) => Said::Bulk(all_said(v@)),
        Reply::Other => Said::Other,
    }
}

/// What the items of a list say.
pub open spec fn all_said(s: Seq<Reply>) -> Seq<Said>
    decreases s,
{
    if s.len() == 0 {
        Seq::empty()
    } else {
        all_said(s.drop_last()).push(said(s.last()))
    }
}

impl View for Reply {
    type V = Said;

    open spec fn view(&self) -> Said {
        said(*self)
    }
}

/// A list says what its items say, one by one.
proof fn lemma_all_said(s: Seq<Reply>)
    ensures
        all_said(s).len() == s.len(),
        forall|i: int| 0 <= i < s.len() ==> #[trigger] all_said(s)[i] == s[i]@,
    decreases s.len(),
{
    if s.len() > 0 {
        lemma_all_said(s.drop_last());
        assert forall|i: int| 0 <= i < s.len() implies #[trigger] all_said(s)[i] == s[i]@ by {
            if i < s.len() - 1 {
                assert(all_said(s)[i] == all_said(s.drop_last())[i]);
                assert(s.drop_last()[i] == s[i]);
            }
        }
    }
}

/// An entry of a stream.
#[derive(Debug)]
pub struct Entry {
    /// The name of the stream.
    pub stream: Vec<u8>,
    /// The id of the entry.
    pub id: Vec<u8>,
    /// The values of its fields.
    pub values: Vec<Vec<u8>>,
}

/// What an entry says.
pub struct EntryModel {
    /// The name of the stream.
    pub stream: Seq<u8>,
    /// The id of the entry.
    pub id: Seq<u8>,
    /// The values of its fields.
    pub values: Seq<Seq<u8>>,
}

impl View for Entry {
    type V = EntryModel;

    open spec fn view(&self) -> EntryModel {
        EntryModel {
            stream: self.stream@,
            id: self.id@,
            values: self.values@.map_values(|v: Vec<u8>| v@),
        }
    }
}

/// What some entries say.
pub open spec fn all_entries(v: Seq<Entry>) -> Seq<EntryModel> {
    v.map_values(|e: Entry| e@)
}

/// The values among the first `n` of a list of names and values: what stands at the
/// odd places and is bytes.
pub open spec fn values_in(fields: Seq<Said>, n: int) -> Seq<Seq<u8>>
    decreases n,
{
    if n < 2 {
        Seq::empty()
    } else {
        let before = values_in(fields, n - 2);
        match fields[n - 1] {
            Said::Data(b) => before.push(b),
            _ => before,
        }
    }
}

/// An entry of a stream: a pair of an id and a list. Without an id there is none,
/// and without a list it has no values.
pub open spec fn entry_in(stream: Seq<u8>, e: Said) -> Option<EntryModel> {
    match e {
        Said::Bulk(pair) => if pair.len() == 2 {
            match pair[0] {
                Said::Data(id) => Some(
                    EntryModel {
                        stream,
                        id,
                        values: match pair[1] {
                            Said::Bulk(fields) => values_in(fields, fields.len() as int),
                            _ => Seq::empty(),
                        },
                    },
                ),
                _ => None,
            }
        } else {
            None
        },
        _ => None,
    }
}

/// The entries among the first `n` of a list.
pub open spec fn entries_in(stream: Seq<u8>, list: Seq<Said>, n: int) -> Seq<EntryModel>
    decreases n,
{
    if n <= 0 {
        Seq::empty()
    } else {
        let before = entries_in(stream, list, n - 1);
        match entry_in(stream, list[n - 1]) {
            Some(e) => before.push(e),
            None => before,
        }
    }
}

/// The entries of a stream: of a pair of a name and a list.
pub open spec fn stream_entries(s: Said) -> Seq<EntryModel> {
    match s {
        Said::Bulk(pair) => if pair.len() == 2 {
            match (pair[0], pair[1]) {
                (Said::Data(name), Said::Bulk(list)) => entries_in(name, list, list.len() as int),
                _ => Seq::empty(),
            }
        } else {
            Seq::empty()
        },
        _ => Seq::empty(),
    }
}

/// The entries of the first `n` streams of a list.
pub open spec fn streams_entries(list: Seq<Said>, n: int) -> Seq<EntryModel>
    decreases n,
{
    if n <= 0 {
        Seq::empty()
    } else {
        streams_entries(list, n - 1) + stream_entries(list[n - 1])
    }
}

/// The entries of a reply, in order.
pub open spec fn reply_entries(r: Said) -> Seq<EntryModel> {
    match r {
        Said::Bulk(list) => streams_entries(list, list.len() as int),
        _ => Seq::empty(),
    }
}

/// The names and values of an entry come in pairs.
pub open spec fn entry_paired(e: Said) -> bool {
    match e {
        Said::Bulk(pair) => if pair.len() == 2 && pair[0] is Data {
            match pair[1] {
                Said::Bulk(fields) => fields.len() % 2 == 0,
                _ => true,
            }
        } else {
            true
        },
        _ => true,
    }
}

/// The names and values of all these entries come in pairs.
pub open spec fn entries_paired(list: Seq<Said>) -> bool {
    forall|i: int| 0 <= i < list.len() ==> entry_paired(#[trigger] list[i])
}

/// The names and values of all entries of a stream come in pairs.
pub open spec fn stream_paired(s: Said) -> bool {
    match s {
        Said::Bulk(pair) => if pair.len() == 2 {
            match (pair[0], pair[1]) {
                (Said::Data(name), Said::Bulk(list)) => entries_paired(list),
                _ => true,
            }
        } else {
            true
        },
        _ => true,
    }
}

/// The names and values of all entries of these streams come in pairs.
pub open spec fn streams_paired(list: Seq<Said>) -> bool {
    forall|i: int| 0 <= i < list.len() ==> stream_paired(#[trigger] list[i])
}

/// The names and values of all entries of a reply come in pairs.
pub open spec fn paired(r: Said) -> bool {
    match r {
        Said::Bulk(list) => streams_paired(list),
        _ => true,
    }
}

/// The values of a list of names and values.
fn read_values(fields: &Vec<Reply>) -> (r: Vec<Vec<u8>>)
    requires
        fields@.len() % 2 == 0,
    ensures
        r@.map_values(|v: Vec<u8>| v@) == values_in(all_said(fields@), fields@.len() as int),
{
    proof {
        lemma_all_said(fields@);
    }
    let mut r: Vec<Vec<u8>> = Vec::new();
    let mut i: usize = 0;
    assert(r@.map_values(|v: Vec<u8>| v@) =~= Seq::empty());
    while i < fields.len()
        invariant
            i <= fields@.len(),
            i % 2 == 0,
            fields@.len() % 2 == 0,
            all_said(fields@).len() == fields@.len(),
            forall|k: int| 0 <= k < fields@.len() ==> #[trigger] all_said(fields@)[k] == fields@[k]@,
            r@.map_values(|v: Vec<u8>| v@) == values_in(all_said(fields@), i as int),
        decreases fields@.len() - i,
    {
        let ghost before = r@;
        assert(all_said(fields@)[i + 1] == fields@[i + 1]@);
        match &fields[i + 1] {
            Reply::Data(b) => {
                let copy: Vec<u8> = vstd::slice::slice_to_vec(b.as_slice());
                r.push(copy);
                assert(r@.map_values(|v: Vec<u8>| v@) =~= before.map_values(
                    |v: Vec<u8>| v@,
                ).push(b@));
            },
            _ => {},
        }
        i += 2;
    }
    r
}

/// Reads an entry of a stream.
fn read_entry(stream: &Vec<u8>, e: &Reply) -> (r: Option<Entry>)
    requires
        entry_paired(e@),
    ensures
        match r {
            Some(x) => entry_in(stream@, e@) == Some(x@),
            None => entry_in(stream@, e@) is None,
        },
{
    let pair = match e {
        Reply::Bulk(pair) => pair,
        _ => return None,
    };
    proof {
        lemma_all_said(pair@);
    }
    if pair.len() != 2 {
        return None;
    }
    assert(all_said(pair@)[0] == pair@[0]@);
    assert(all_said(pair@)[1] == pair@[1]@);
    let id = match &pair[0] {
        Reply::Data(b) => vstd::slice::slice_to_vec(b.as_slice()),
        _ => return None,
    };
    let values = match &pair[1] {
        Reply::Bulk(fields) => {
            proof {
                lemma_all_said(fields@);
            }
            read_values(fields)
        },
        _ => {
            let none: Vec<Vec<u8>> = Vec::new();
            assert(none@.map_values(|v: Vec<u8>| v@) =~= Seq::empty());
            none
        },
    };
    Some(Entry { stream: vstd::slice::slice_to_vec(stream.as_slice()), id, values })
}

/// Appends the entries of a stream.
fn read_stream(s: &Reply, out: &mut Vec<Entry>)
    requires
        stream_paired(s@),
    ensures
        all_entries(final(out)@) == all_entries(old(out)@) + stream_entries(s@),
{
    let pair = match s {
        Reply::Bulk(pair) => pair,
        _ => {
            assert(all_entries(out@) =~= all_entries(old(out)@) + Seq::empty());
            return;
        },
    };
    proof {
        lemma_all_said(pair@);
    }
    if pair.len() != 2 {
        assert(all_entries(out@) =~= all_entries(old(out)@) + Seq::empty());
        return;
    }
    assert(all_said(pair@)[0] == pair@[0]@);
    assert(all_said(pair@)[1] == pair@[1]@);
    match (&pair[0], &pair[1]) {
        (Reply::Data(name), Reply::Bulk(list)) => {
            let ghost docs = all_said(list@);
            proof {
                lemma_all_said(list@);
                assert(pair@[1]@ == Said::Bulk(docs));
                assert(s@ == Said::Bulk(all_said(pair@)));
                assert(all_entries(out@) =~= all_entries(old(out)@) + Seq::empty());
            }
            let mut i: usize = 0;
            while i < list.len()
                invariant
                    i <= list@.len(),
                    docs.len() == list@.len(),
                    forall|k: int| 0 <= k < list@.len() ==> #[trigger] docs[k] == list@[k]@,
                    entries_paired(docs),
                    all_entries(out@) == all_entries(old(out)@) + entries_in(
                        name@,
                        docs,
                        i as int,
                    ),
                decreases list@.len() - i,
            {
                let ghost before = out@;
                assert(docs[i as int] == list@[i as int]@);
                match read_entry(name, &list[i]) {
                    Some(e) => {
                        out.push(e);
                        assert(all_entries(out@) =~= all_entries(before).push(e@));
                        assert(all_entries(out@) =~= all_entries(old(out)@) + entries_in(
                            name@,
                            docs,
                            i + 1,
                        ));
                    },
                    None => {},
                }
                i += 1;
            }
        },
        _ => {
            assert(all_entries(out@) =~= all_entries(old(out)@) + Seq::empty());
        },
    }
}

/// The entries of a reply, in order.
pub fn read_reply(r: &Reply) -> (out: Vec<Entry>)
    requires
        paired(r@),
    ensures
        all_entries(out@) == reply_entries(r@),
{
    let mut out: Vec<Entry> = Vec::new();
    assert(all_entries(out@) =~= Seq::empty());
    match r {
        Reply::Bulk(list) => {
            let ghost docs = all_said(list@);
            proof {
                lemma_all_said(list@);
                assert(r@ == Said::Bulk(docs));
            }
            let mut i: usize = 0;
            while i < list.len()
                invariant
                    i <= list@.len(),
                    docs.len() == list@.len(),
                    forall|k: int| 0 <= k < list@.len() ==> #[trigger] docs[k] == list@[k]@,
                    streams_paired(docs),
                    all_entries(out@) == streams_entries(docs, i as int),
                decreases list@.len() - i,
            {
                assert(docs[i as int] == list@[i as int]@);
                read_stream(&list[i], &mut out);
                i += 1;
            }
        },
        _ => {},
    }
    out
}

/// Whether the names and values of an entry come in pairs.
fn entry_is_paired(e: &Reply) -> (b: bool)
    ensures
        b == entry_paired(e@),
{
    match e {
        Reply::Bulk(pair) => {
            proof {
                lemma_all_said(pair@);
            }
            if pair.len() != 2 {
                return true;
            }
            assert(all_said(pair@)[0] == pair@[0]@);
            assert(all_said(pair@)[1] == pair@[1]@);
            match (&pair[0], &pair[1]) {
                (Reply::Data(_), Reply::Bulk(fields)) => {
                    proof {
                        lemma_all_said(fields@);
                    }
                    fields.len() % 2 == 0
                },
                _ => true,
            }
        },
        _ => true,
    }
}

/// Whether the names and values of all entries of a stream come in pairs.
fn stream_is_paired(s: &Reply) -> (b: bool)
    ensures
        b == stream_paired(s@),
{
    match s {
        Reply::Bulk(pair) => {
            proof {
                lemma_all_said(pair@);
            }
            if pair.len() != 2 {
                return true;
            }
            assert(all_said(pair@)[0] == pair@[0]@);
            assert(all_said(pair@)[1] == pair@[1]@);
            match (&pair[0], &pair[1]) {
                (Reply::Data(_), Reply::Bulk(list)) => {
                    let ghost docs = all_said(list@);
                    proof {
                        lemma_all_said(list@);
                    }
                    let mut i: usize = 0;
                    while i < list.len()
                        invariant
                            i <= list@.len(),
                            docs.len() == list@.len(),
                            forall|k: int| 0 <= k < list@.len() ==> #[trigger] docs[k] == list@[k]@,
                            forall|k: int| 0 <= k < i ==> entry_paired(#[trigger] docs[k]),
                            stream_paired(s@) == entries_paired(docs),
                        decreases list@.len() - i,
                    {
                        assert(docs[i as int] == list@[i as int]@);
                        if !entry_is_paired(&list[i]) {
                            return false;
                        }
                        i += 1;
                    }
                    true
                },
                _ => true,
            }
        },
        _ => true,
    }
}

/// Whether the names and values of all entries of a reply come in pairs.
pub fn is_paired(r: &Reply) -> (b: bool)
    ensures
        b == paired(r@),
{
    match r {
        Reply::Bulk(list) => {
            let ghost docs = all_said(list@);
            proof {
                lemma_all_said(list@);
            }
            let mut i: usize = 0;
            while i < list.len()
                invariant
                    i <= list@.len(),
                    docs.len() == list@.len(),
                    forall|k: int| 0 <= k < list@.len() ==> #[trigger] docs[k] == list@[k]@,
                    forall|k: int| 0 <= k < i ==> stream_paired(#[trigger] docs[k]),
                    paired(r@) == streams_paired(docs),
                decreases list@.len() - i,
            {
                assert(docs[i as int] == list@[i as int]@);
                if !stream_is_paired(&list[i]) {
                    return false;
                }
                i += 1;
            }
            true
        },
        _ => true,
    }
}

/// The name of the field that carries a record.
pub const RECORD_FIELD: &'static str = "data";

/// What a field of an entry carries.
#[derive(Debug)]
pub enum Payload {
    /// A record in binary form.
    Binary(Vec<u8>),
    /// A record as text.
    Text(String),
    /// No record.
    Nothing,
}

/// What a field of an entry carries, given its value as bytes and as text, as far as it
/// can be read so: nothing unless its name says that it carries a record, the bytes where
/// there are any, and otherwise the text.
pub fn payload_of(name: &str, bytes: Option<Vec<u8>>, text: Option<String>) -> (p: Payload)
    ensures
        match p {
            Payload::Binary(b) => name@ == RECORD_FIELD@ && bytes == Some(b),
            Payload::Text(s) => name@ == RECORD_FIELD@ && bytes is None && text == Some(s),
            Payload::Nothing => name@ != RECORD_FIELD@ || (bytes is None && text is None),
        },
{
    if !same_text(name, RECORD_FIELD) {
        return Payload::Nothing;
    }
    match bytes {
        Some(b) => Payload::Binary(b),
        None => match text {
            Some(s) => Payload::Text(s),
            None => Payload::Nothing,
        },
    }
}

/// The values of an entry are what stands at the odd places of its list of names and
/// values, in order.
pub proof fn law_values_stand_at_odd_places(fields: Seq<Said>, n: int)
    requires
        0 <= n <= fields.len(),
        n % 2 == 0,
        forall|i: int| 0 <= i < fields.len() ==> (#[trigger] fields[i]) is Data,
    ensures
        values_in(fields, n).len() == n / 2,
        forall|k: int|
            0 <= k < n / 2 ==> fields[2 * k + 1] == Said::Data(#[trigger] values_in(fields, n)[k]),
    decreases n,
{
    if n >= 2 {
        law_values_stand_at_odd_places(fields, n - 2);
        assert(fields[n - 1] is Data);
    }
}

/// Whether an item of a stream is an entry: a pair of an id and a list.
pub open spec fn is_entry(e: Said, id: Seq<u8>, fields: Seq<Said>) -> bool {
    e == Said::Bulk(seq![Said::Data(id), Said::Bulk(fields)])
}

/// Whether an item of a stream is an entry.
pub open spec fn is_some_entry(e: Said) -> bool {
    exists|id: Seq<u8>, fields: Seq<Said>| #[trigger] is_entry(e, id, fields)
}

/// A stream whose items are all entries gives one entry for each, in order, with the name
/// of the stream, the id of the item and the values of its list.
pub proof fn law_entries_are_read_in_order(stream: Seq<u8>, list: Seq<Said>, n: int)
    requires
        0 <= n <= list.len(),
        forall|i: int| 0 <= i < list.len() ==> is_some_entry(#[trigger] list[i]),
    ensures
        entries_in(stream, list, n).len() == n,
        forall|i: int|
            0 <= i < n ==> {
                let e = #[trigger] entries_in(stream, list, n)[i];
                &&& e.stream == stream
                &&& exists|fields: Seq<Said>| #[trigger]
                    is_entry(list[i], e.id, fields) && e.values == values_in(
                        fields,
                        fields.len() as int,
                    )
            },
    decreases n,
{
    if n > 0 {
        law_entries_are_read_in_order(stream, list, n - 1);
        assert(is_some_entry(list[n - 1]));
        let (id, fields) = choose|id: Seq<u8>, fields: Seq<Said>| #[trigger]
            is_entry(list[n - 1], id, fields);
        assert(is_entry(list[n - 1], id, fields));
        let e = entry_in(stream, list[n - 1])->Some_0;
        assert(e.id == id);
        assert(is_entry(list[n - 1], e.id, fields) && e.values == values_in(
            fields,
            fields.len() as int,
        ));
        let before = entries_in(stream, list, n - 1);
        assert(entries_in(stream, list, n) == before.push(e));
    }
}

/// A reply of two lists of streams, one after the other, gives the entries of the first and
/// then those of the second; a stream alone gives its own.
pub proof fn law_streams_are_read_in_order(a: Seq<Said>, b: Seq<Said>)
    ensures
        reply_entries(Said::Bulk(a + b)) == reply_entries(Said::Bulk(a)) + reply_entries(
            Said::Bulk(b),
        ),
        a.len() == 1 ==> reply_entries(Said::Bulk(a)) == stream_entries(a[0]),
    decreases b.len(),
{
    reveal_with_fuel(streams_entries, 2);
    if a.len() == 1 {
        assert(streams_entries(a, 1) =~= stream_entries(a[0]));
    }
    if b.len() == 0 {
        assert(a + b =~= a);
        assert(reply_entries(Said::Bulk(a)) + reply_entries(Said::Bulk(b)) =~= reply_entries(
            Said::Bulk(a),
        ));
    } else {
        let c = b.drop_last();
        law_streams_are_read_in_order(a, c);
        lemma_streams_front(a + b, a + c, (a + c).len() as int);
        lemma_streams_front(b, c, c.len() as int);
        assert((a + b)[(a + b).len() - 1] == b.last());
        assert(reply_entries(Said::Bulk(a + b)) =~= reply_entries(Said::Bulk(a)) + reply_entries(
            Said::Bulk(b),
        ));
    }
}

proof fn lemma_streams_front(a: Seq<Said>, b: Seq<Said>, n: int)
    requires
        n <= a.len(),
        n <= b.len(),
        forall|i: int| 0 <= i < n ==> #[trigger] a[i] == b[i],
    ensures
        streams_entries(a, n) == streams_entries(b, n),
    decreases n,
{
    if n > 0 {
        lemma_streams_front(a, b, n - 1);
        assert(a[n - 1] == b[n - 1]);
    }
}

} // verus!
