//! How ranks learn each other's endpoints: each publishes its own, and the
//! coordinator answers all of them with the table.

use crate::chars::{char_lists, chars_of, lemma_split_some, split, split_chars, text_of};
use crate::rank::network::control::{
    blank_header, checked, framed, invalid, make_frame, message_bytes, response_defect, seen,
    validate_response,
};
use crate::rank::network::{NetworkError, NetworkFailure};
use crate::rank::protocol::frame::FrameModel;
use crate::rank::protocol::{
    ElementType, Frame, FrameHeader, Opcode, UniqueId, ANY_RANK, FLAG_PAYLOAD,
};
use crate::text::{
    checked_text, decimal, number_list, push_decimal, push_number_list, push_usize, quote, quoted,
    utf8_complaint,
};
use vstd::prelude::*;
use vstd::string::*;
use vstd::utf8::*;

verus! {

/// Texts as character sequences.
pub open spec fn texts(list: Seq<String>) -> Seq<Seq<char>> {
    Seq::new(list.len(), |i: int| list[i]@)
}

/// Rows of texts as character sequences.
pub open spec fn text_rows(rows: Seq<Vec<String>>) -> Seq<Seq<Seq<char>>> {
    Seq::new(rows.len(), |i: int| texts(rows[i]@))
}

/// A line without the carriage return at its end.
pub open spec fn chomped(line: Seq<char>) -> Seq<char> {
    if line.len() > 0 && line.last() == '\r' {
        line.drop_last()
    } else {
        line
    }
}

/// The lines of a text: each ends at a line feed, with or without a carriage
/// return before it; what follows the last line feed is a line where it is not
/// empty.
pub open spec fn lines(text: Seq<char>) -> Seq<Seq<char>> {
    let fields = split(text, '\n');
    let ended = Seq::new((fields.len() - 1) as nat, |i: int| chomped(fields[i]));
    if fields.last().len() == 0 {
        ended
    } else {
        ended.push(fields.last())
    }
}

fn chomp(line: &[char]) -> (result: String)
    ensures
        result@ == chomped(line@),
{
    let length: usize = if line.len() > 0 && line[line.len() - 1] == '\r' {
        line.len() - 1
    } else {
        line.len()
    };
    let mut kept: Vec<char> = Vec::new();
    let mut index: usize = 0;
    while index < length
        invariant
            index <= length <= line@.len(),
            kept@ == line@.take(index as int),
        decreases length - index,
    {
        kept.push(line[index]);
        assert(kept@ =~= line@.take(index + 1));
        index = index + 1;
    }
    assert(kept@ =~= chomped(line@));
    text_of(kept.as_slice())
}

/// The lines of a text.
pub fn split_lines(text: &str) -> (result: Vec<String>)
    ensures
        texts(result@) == lines(text@),
{
    let chars = chars_of(text);
    let fields = split_chars(chars.as_slice(), '\n');
    let ghost model = split(text@, '\n');
    proof {
        lemma_split_some(text@, '\n');
        assert(char_lists(fields@).len() == fields@.len());
    }
    let mut result: Vec<String> = Vec::new();
    let mut index: usize = 0;
    while index < fields.len() - 1
        invariant
            index < fields@.len(),
            model == char_lists(fields@),
            result@.len() == index,
            forall|i: int| 0 <= i < index ==> (#[trigger] result@[i])@ == chomped(model[i]),
        decreases fields@.len() - index,
    {
        assert(model[index as int] == fields@[index as int]@);
        result.push(chomp(fields[index].as_slice()));
        index = index + 1;
    }
    assert(model[index as int] == fields@[index as int]@);
    if fields[index].len() > 0 {
        result.push(text_of(fields[index].as_slice()));
    }
    assert(texts(result@) =~= lines(text@));
    result
}

/// Lines with a line feed between each two.
pub open spec fn joined_lines(list: Seq<Seq<char>>) -> Seq<char>
    decreases list.len(),
{
    if list.len() == 0 {
        Seq::empty()
    } else if list.len() == 1 {
        list[0]
    } else {
        joined_lines(list.drop_last()) + "\n"@ + list.last()
    }
}

fn join_lines(list: &[String]) -> (text: String)
    ensures
        text@ == joined_lines(texts(list@)),
{
    let ghost model = texts(list@);
    let mut text = String::from_str("");
    proof {
        reveal_strlit("");
        assert(text@ =~= Seq::<char>::empty());
    }
    let mut index: usize = 0;
    assert(model.take(0) =~= Seq::<Seq<char>>::empty());
    while index < list.len()
        invariant
            index <= list@.len(),
            model == texts(list@),
            text@ == joined_lines(model.take(index as int)),
        decreases list@.len() - index,
    {
        proof {
            let next = model.take(index + 1);
            assert(next.drop_last() =~= model.take(index as int));
            assert(next.last() == list@[index as int]@);
        }
        if index > 0 {
            text.append("\n");
        }
        text.append(list[index].as_str());
        assert(text@ =~= joined_lines(model.take(index + 1)));
        index = index + 1;
    }
    assert(model.take(index as int) =~= model);
    text
}

/// A header as text.
pub open spec fn header_text(header: FrameHeader) -> Seq<char> {
    "FrameHeader { opcode: "@ + header.opcode.spec_name() + ", element_type: "@
        + header.element_type.spec_name() + ", flags: "@ + decimal(header.flags as nat)
        + ", source_rank: "@ + decimal(header.source_rank as nat) + ", destination_rank: "@
        + decimal(header.destination_rank as nat) + ", root_rank: "@ + decimal(
        header.root_rank as nat,
    ) + ", world_size: "@ + decimal(header.world_size as nat) + ", sequence: "@ + decimal(
        header.sequence as nat,
    ) + ", tag: "@ + decimal(header.tag as nat) + ", element_count: "@ + decimal(
        header.element_count as nat,
    ) + ", payload_bytes: "@ + decimal(header.payload_bytes as nat) + ", unique_id: UniqueId("@
        + number_list(header.unique_id.0@.map_values(|b: u8| b as nat)) + "), payload_checksum: "@
        + decimal(header.payload_checksum as nat) + " }"@
}

fn push_header(out: &mut String, header: &FrameHeader)
    ensures
        final(out)@ == old(out)@ + header_text(*header),
{
    let ghost before = out@;
    let mut text = String::from_str("FrameHeader { opcode: ");
    text.append(header.opcode.name());
    text.append(", element_type: ");
    text.append(header.element_type.name());
    text.append(", flags: ");
    push_decimal(&mut text, header.flags as u64);
    text.append(", source_rank: ");
    push_decimal(&mut text, header.source_rank as u64);
    text.append(", destination_rank: ");
    push_decimal(&mut text, header.destination_rank as u64);
    text.append(", root_rank: ");
    push_decimal(&mut text, header.root_rank as u64);
    text.append(", world_size: ");
    push_decimal(&mut text, header.world_size as u64);
    text.append(", sequence: ");
    push_decimal(&mut text, header.sequence);
    text.append(", tag: ");
    push_decimal(&mut text, header.tag);
    text.append(", element_count: ");
    push_decimal(&mut text, header.element_count);
    text.append(", payload_bytes: ");
    push_decimal(&mut text, header.payload_bytes);
    text.append(", unique_id: UniqueId(");
    let mut bytes: Vec<u64> = Vec::new();
    let mut index: usize = 0;
    while index < 16
        invariant
            index <= 16,
            bytes@.len() == index,
            forall|i: int| 0 <= i < index ==> #[trigger] bytes@[i] == header.unique_id.0@[i],
        decreases 16 - index,
    {
        bytes.push(header.unique_id.0[index] as u64);
        index = index + 1;
    }
    proof {
        assert(bytes@.map_values(|v: u64| v as nat) =~= header.unique_id.0@.map_values(
            |b: u8| b as nat,
        ));
    }
    push_number_list(&mut text, bytes.as_slice());
    text.append("), payload_checksum: ");
    push_decimal(&mut text, header.payload_checksum as u64);
    text.append(" }");
    out.append(text.as_str());
}

/// Whether a frame publishes a rank's endpoints.
pub open spec fn publishes(
    frame: FrameModel,
    unique_id: UniqueId,
    rank: int,
    world_size: int,
    rails: usize,
) -> bool {
    let header = frame.header;
    &&& header.opcode == Opcode::PeerEndpoint
    &&& header.element_type == ElementType::U8
    &&& header.unique_id == unique_id
    &&& header.source_rank == rank
    &&& header.destination_rank == ANY_RANK
    &&& header.root_rank == ANY_RANK
    &&& header.world_size == world_size
    &&& header.sequence == 0
    &&& header.tag == rails as u64
    &&& header.flags == FLAG_PAYLOAD
    &&& header.element_count == frame.payload.len()
    &&& frame.payload.len() > 0
}

/// The entries that a rank publishes, or why they are refused.
pub open spec fn published(
    frame: Option<FrameModel>,
    unique_id: UniqueId,
    rank: int,
    world_size: int,
    rails: usize,
) -> Result<Seq<Seq<char>>, NetworkFailure> {
    match frame {
        None => Err(
            invalid(
                "rank "@ + decimal(rank as nat)
                    + " closed before publishing its direct peer endpoint"@,
            ),
        ),
        Some(frame) => {
            let entries = lines(decode_utf8(frame.payload));
            if !publishes(frame, unique_id, rank, world_size, rails) {
                Err(
                    invalid(
                        "rank "@ + decimal(rank as nat)
                            + " published an invalid direct peer endpoint frame: "@ + header_text(
                            frame.header,
                        ) + ", payload bytes "@ + decimal(frame.payload.len()),
                    ),
                )
            } else if !valid_utf8(frame.payload) {
                Err(
                    invalid(
                        "rank "@ + decimal(rank as nat)
                            + " direct peer endpoints are not UTF-8: "@ + utf8_complaint(
                            frame.payload,
                        ),
                    ),
                )
            } else if entries.len() != 1 && entries.len() != rails {
                Err(
                    invalid(
                        "rank "@ + decimal(rank as nat) + " published "@ + decimal(entries.len())
                            + " direct peer endpoints, expected one shared endpoint or "@
                            + decimal(rails as nat) + " rail endpoints"@,
                    ),
                )
            } else {
                Ok(entries)
            }
        },
    }
}

/// The entries of the frame with which a rank publishes its endpoints; `None`
/// is a closed connection.
pub fn published_entries(
    frame: Option<&Frame>,
    unique_id: UniqueId,
    rank: usize,
    world_size: usize,
    rails: usize,
) -> (result: Result<Vec<String>, NetworkError>)
    ensures
        match published(
            match frame {
                Some(frame) => Some(frame@),
                None => None,
            },
            unique_id,
            rank as int,
            world_size as int,
            rails,
        ) {
            Ok(entries) => result is Ok && texts(result->Ok_0@) == entries,
            Err(failure) => result is Err && result->Err_0@ == failure,
        },
{
    let frame = match frame {
        Some(frame) => frame,
        None => {
            let mut text = String::from_str("rank ");
            push_usize(&mut text, rank);
            text.append(" closed before publishing its direct peer endpoint");
            return Err(NetworkError::InvalidConfiguration(text));
        },
    };
    let header = frame.header;
    if header.opcode != Opcode::PeerEndpoint || header.element_type != ElementType::U8
        || !header.unique_id.same(&unique_id) || header.source_rank as usize != rank
        || header.destination_rank != ANY_RANK || header.root_rank != ANY_RANK
        || header.world_size as usize != world_size || header.sequence != 0 || header.tag
        != rails as u64 || header.flags != FLAG_PAYLOAD || header.element_count
        != frame.payload.len() as u64 || frame.payload.len() == 0 {
        let mut text = String::from_str("rank ");
        push_usize(&mut text, rank);
        text.append(" published an invalid direct peer endpoint frame: ");
        push_header(&mut text, &header);
        text.append(", payload bytes ");
        push_usize(&mut text, frame.payload.len());
        return Err(NetworkError::InvalidConfiguration(text));
    }
    let text = match checked_text(frame.payload.as_slice()) {
        Ok(text) => text,
        Err(complaint) => {
            let mut message = String::from_str("rank ");
            push_usize(&mut message, rank);
            message.append(" direct peer endpoints are not UTF-8: ");
            message.append(complaint.as_str());
            return Err(NetworkError::InvalidConfiguration(message));
        },
    };
    let entries = split_lines(text.as_str());
    assert(texts(entries@).len() == entries@.len());
    if entries.len() != 1 && entries.len() != rails {
        let mut message = String::from_str("rank ");
        push_usize(&mut message, rank);
        message.append(" published ");
        push_usize(&mut message, entries.len());
        message.append(" direct peer endpoints, expected one shared endpoint or ");
        push_usize(&mut message, rails);
        message.append(" rail endpoints");
        return Err(NetworkError::InvalidConfiguration(message));
    }
    Ok(entries)
}

/// An entry that was read as a socket address: the address as text, its port,
/// and the same with the address that the rank connects from where the entry
/// names none.
#[derive(Debug)]
pub enum EndpointEntry {
    Address { text: String, port: u16, unspecified: bool, reached: String },
    Invalid { error: String },
}

/// Why an entry is refused.
pub open spec fn entry_defect(entry: EndpointEntry, given: Seq<char>, rank: int, rail: int) -> Option<
    NetworkFailure,
> {
    match entry {
        EndpointEntry::Invalid { error } => Some(
            invalid(
                "rank "@ + decimal(rank as nat) + " direct peer endpoint "@ + quoted(given)
                    + " for rail "@ + decimal(rail as nat) + " is invalid: "@ + error@,
            ),
        ),
        EndpointEntry::Address { port, .. } => if port == 0 {
            Some(
                invalid(
                    "rank "@ + decimal(rank as nat) + " direct peer endpoint for rail "@ + decimal(
                        rail as nat,
                    ) + " uses port zero"@,
                ),
            )
        } else {
            None
        },
    }
}

/// Where an entry is reached.
pub open spec fn entry_text(entry: EndpointEntry) -> Seq<char> {
    match entry {
        EndpointEntry::Address { text, unspecified, reached, .. } => if unspecified {
            reached@
        } else {
            text@
        },
        EndpointEntry::Invalid { .. } => Seq::empty(),
    }
}

/// The first of the first `count` entries that is refused.
pub open spec fn entries_defect(
    entries: Seq<EndpointEntry>,
    given: Seq<Seq<char>>,
    rank: int,
    count: int,
) -> Option<NetworkFailure>
    decreases count,
{
    if count <= 0 {
        None
    } else {
        match entries_defect(entries, given, rank, count - 1) {
            Some(defect) => Some(defect),
            None => entry_defect(entries[count - 1], given[count - 1], rank, count - 1),
        }
    }
}

proof fn lemma_entries_defect(
    entries: Seq<EndpointEntry>,
    given: Seq<Seq<char>>,
    rank: int,
    count: int,
    end: int,
)
    requires
        count <= end,
    ensures
        entries_defect(entries, given, rank, count) is Some ==> entries_defect(
            entries,
            given,
            rank,
            end,
        ) == entries_defect(entries, given, rank, count),
    decreases end - count,
{
    if count < end {
        lemma_entries_defect(entries, given, rank, count, end - 1);
    }
}

/// A rank's endpoints, one per rail: a single entry serves all rails.
pub open spec fn spread(entries: Seq<Seq<char>>, rails: usize) -> Seq<Seq<char>> {
    if entries.len() == 1 {
        Seq::new(rails as nat, |r: int| entries[0])
    } else {
        entries
    }
}

/// The endpoints of a rank, from its entries as they were read.
pub fn rank_endpoints(
    rank: usize,
    given: &[String],
    entries: &[EndpointEntry],
    rails: usize,
) -> (result: Result<Vec<String>, NetworkError>)
    requires
        given@.len() == entries@.len(),
    ensures
        match entries_defect(entries@, texts(given@), rank as int, entries@.len() as int) {
            Some(defect) => result is Err && result->Err_0@ == defect,
            None => result is Ok && texts(result->Ok_0@) == spread(
                Seq::new(entries@.len(), |i: int| entry_text(entries@[i])),
                rails,
            ),
        },
{
    let ghost spelled = texts(given@);
    let ghost wanted = Seq::new(entries@.len(), |i: int| entry_text(entries@[i]));
    let mut endpoints: Vec<String> = Vec::new();
    let mut rail: usize = 0;
    while rail < entries.len()
        invariant
            rail <= entries@.len(),
            given@.len() == entries@.len(),
            spelled == texts(given@),
            wanted == Seq::new(entries@.len(), |i: int| entry_text(entries@[i])),
            endpoints@.len() == rail,
            forall|i: int| 0 <= i < rail ==> (#[trigger] endpoints@[i])@ == wanted[i],
            entries_defect(entries@, spelled, rank as int, rail as int) is None,
        decreases entries@.len() - rail,
    {
        proof {
            lemma_entries_defect(
                entries@,
                spelled,
                rank as int,
                rail + 1,
                entries@.len() as int,
            );
        }
        match &entries[rail] {
            EndpointEntry::Invalid { error } => {
                let mut text = String::from_str("rank ");
                push_usize(&mut text, rank);
                text.append(" direct peer endpoint ");
                let shown = quote(given[rail].as_str());
                text.append(shown.as_str());
                text.append(" for rail ");
                push_usize(&mut text, rail);
                text.append(" is invalid: ");
                text.append(error.as_str());
                return Err(NetworkError::InvalidConfiguration(text));
            },
            EndpointEntry::Address { text, port, unspecified, reached } => {
                if *port == 0 {
                    let mut message = String::from_str("rank ");
                    push_usize(&mut message, rank);
                    message.append(" direct peer endpoint for rail ");
                    push_usize(&mut message, rail);
                    message.append(" uses port zero");
                    return Err(NetworkError::InvalidConfiguration(message));
                }
                if *unspecified {
                    endpoints.push(String::from_str(reached.as_str()));
                } else {
                    endpoints.push(String::from_str(text.as_str()));
                }
            },
        }
        rail = rail + 1;
    }
    assert(texts(endpoints@) =~= wanted);
    if endpoints.len() == 1 {
        let mut all: Vec<String> = Vec::new();
        let mut index: usize = 0;
        while index < rails
            invariant
                index <= rails,
                endpoints@.len() == 1,
                endpoints@[0]@ == wanted[0],
                all@.len() == index,
                forall|i: int| 0 <= i < index ==> (#[trigger] all@[i])@ == wanted[0],
            decreases rails - index,
        {
            all.push(String::from_str(endpoints[0].as_str()));
            index = index + 1;
        }
        assert(texts(all@) =~= spread(wanted, rails));
        return Ok(all);
    }
    Ok(endpoints)
}

/// The lines of the table: one per rank where every rank shares one endpoint
/// between its rails, otherwise one per rank and rail.
pub open spec fn table_lines(rows: Seq<Seq<Seq<char>>>, shared: bool) -> Seq<Seq<char>>
    decreases rows.len(),
{
    if rows.len() == 0 {
        Seq::empty()
    } else {
        table_lines(rows.drop_last(), shared) + (if shared {
            rows.last().take(1)
        } else {
            rows.last()
        })
    }
}

/// The table that the coordinator sends, as bytes.
fn endpoint_table(rows: &[Vec<String>], shared: bool) -> (bytes: Vec<u8>)
    requires
        forall|i: int| 0 <= i < rows@.len() ==> (#[trigger] text_rows(rows@)[i]).len() > 0,
    ensures
        bytes@ == encode_utf8(joined_lines(table_lines(text_rows(rows@), shared))),
{
    let ghost model = text_rows(rows@);
    let mut list: Vec<String> = Vec::new();
    let mut rank: usize = 0;
    assert(model.take(0) =~= Seq::<Seq<Seq<char>>>::empty());
    assert(texts(list@) =~= table_lines(model.take(0), shared));
    while rank < rows.len()
        invariant
            rank <= rows@.len(),
            model == text_rows(rows@),
            forall|i: int| 0 <= i < rows@.len() ==> (#[trigger] text_rows(rows@)[i]).len() > 0,
            texts(list@) == table_lines(model.take(rank as int), shared),
        decreases rows@.len() - rank,
    {
        let row = &rows[rank];
        let ghost before = texts(list@);
        proof {
            assert(text_rows(rows@)[rank as int].len() > 0);
            assert(model[rank as int] == texts(row@));
            assert(model.take(rank + 1).drop_last() =~= model.take(rank as int));
        }
        let count: usize = if shared {
            1
        } else {
            row.len()
        };
        let mut index: usize = 0;
        while index < count
            invariant
                index <= count <= row@.len(),
                texts(list@) == before + texts(row@).take(index as int),
            decreases count - index,
        {
            let ghost was = texts(list@);
            list.push(String::from_str(row[index].as_str()));
            assert(texts(list@) =~= was.push(texts(row@)[index as int]));
            assert(texts(list@) =~= before + texts(row@).take(index + 1));
            index = index + 1;
        }
        assert(texts(row@).take(row@.len() as int) =~= texts(row@));
        assert(texts(list@) =~= table_lines(model.take(rank + 1), shared));
        rank = rank + 1;
    }
    assert(model.take(rank as int) =~= model);
    let text = join_lines(list.as_slice());
    message_bytes(text.as_str())
}

/// Whether every rank published a single line, for all of its rails.
pub open spec fn all_share(published: Seq<usize>) -> bool {
    forall|i: int| 0 <= i < published.len() ==> #[trigger] published[i] == 1
}

/// The table of all ranks' endpoints, laid out by how many lines each of them
/// published.
pub fn published_table(rows: &[Vec<String>], published: &[usize]) -> (bytes: Vec<u8>)
    requires
        forall|i: int| 0 <= i < rows@.len() ==> (#[trigger] text_rows(rows@)[i]).len() > 0,
    ensures
        bytes@ == encode_utf8(
            joined_lines(table_lines(text_rows(rows@), all_share(published@))),
        ),
{
    let mut rank: usize = 0;
    while rank < published.len()
        invariant
            rank <= published@.len(),
            forall|i: int| 0 <= i < rows@.len() ==> (#[trigger] text_rows(rows@)[i]).len() > 0,
            forall|i: int| 0 <= i < rank ==> #[trigger] published@[i] == 1,
        decreases published@.len() - rank,
    {
        if published[rank] != 1 {
            assert(published@[rank as int] != 1);
            return endpoint_table(rows, false);
        }
        rank = rank + 1;
    }
    endpoint_table(rows, true)
}

/// The frame that carries the table to one rank.
pub fn table_frame(
    unique_id: UniqueId,
    rank: u32,
    world_size: u32,
    rails: usize,
    table: Vec<u8>,
) -> (result: Result<Frame, NetworkError>)
    ensures
        seen(result) == framed(
            (FrameHeader {
                destination_rank: rank,
                tag: rails as u64,
                ..blank_header(
                    unique_id,
                    Opcode::PeerEndpoint,
                    ElementType::U8,
                    0,
                    world_size,
                    0,
                    table@.len() as u64,
                )
            }),
            table@,
        ),
{
    let mut header = FrameHeader::collective(
        unique_id,
        Opcode::PeerEndpoint,
        ElementType::U8,
        0,
        ANY_RANK,
        world_size,
        0,
        table.len() as u64,
    );
    header.destination_rank = rank;
    header.tag = rails as u64;
    make_frame(header, table)
}

/// Whether all texts are the same.
pub open spec fn all_same(list: Seq<Seq<char>>) -> bool {
    forall|i: int| 0 <= i < list.len() ==> #[trigger] list[i] == list[0]
}

/// What a rank publishes: one line where its rails share an endpoint.
pub open spec fn publication(endpoints: Seq<Seq<char>>) -> Seq<char> {
    if all_same(endpoints) {
        joined_lines(endpoints.take(1))
    } else {
        joined_lines(endpoints)
    }
}

fn same_text(a: &str, b: &str) -> (same: bool)
    ensures
        same == (a@ == b@),
{
    let chars = chars_of(a);
    crate::chars::spells(chars.as_slice(), b)
}

/// The frame with which a rank publishes its endpoints, one per rail.
pub fn publish_frame(
    unique_id: UniqueId,
    rank: u32,
    world_size: u32,
    rails: usize,
    endpoints: &[String],
) -> (result: Result<Frame, NetworkError>)
    requires
        rails > 0,
    ensures
        if endpoints@.len() != rails {
            result is Err && result->Err_0@ == invalid(
                "rank "@ + decimal(rank as nat) + " has "@ + decimal(endpoints@.len())
                    + " direct peer endpoints, expected "@ + decimal(rails as nat),
            )
        } else {
            let bytes = encode_utf8(publication(texts(endpoints@)));
            seen(result) == framed(
                FrameHeader {
                    tag: rails as u64,
                    ..blank_header(
                        unique_id,
                        Opcode::PeerEndpoint,
                        ElementType::U8,
                        rank,
                        world_size,
                        0,
                        bytes.len() as u64,
                    )
                },
                bytes,
            )
        },
{
    if endpoints.len() != rails {
        let mut text = String::from_str("rank ");
        push_decimal(&mut text, rank as u64);
        text.append(" has ");
        push_usize(&mut text, endpoints.len());
        text.append(" direct peer endpoints, expected ");
        push_usize(&mut text, rails);
        return Err(NetworkError::InvalidConfiguration(text));
    }
    let ghost model = texts(endpoints@);
    let mut shared = true;
    let mut index: usize = 1;
    while index < endpoints.len()
        invariant
            1 <= index <= endpoints@.len(),
            model == texts(endpoints@),
            shared == (forall|i: int| 0 <= i < index ==> #[trigger] model[i] == model[0]),
        decreases endpoints@.len() - index,
    {
        assert(model[index as int] == endpoints@[index as int]@);
        assert(model[0] == endpoints@[0]@);
        if !same_text(endpoints[index].as_str(), endpoints[0].as_str()) {
            shared = false;
        }
        index = index + 1;
    }
    let text = if shared {
        assert(texts(seq![endpoints@[0]]) =~= model.take(1));
        assert(joined_lines(model.take(1)) == endpoints@[0]@);
        String::from_str(endpoints[0].as_str())
    } else {
        join_lines(endpoints)
    };
    let payload = message_bytes(text.as_str());
    let mut header = FrameHeader::collective(
        unique_id,
        Opcode::PeerEndpoint,
        ElementType::U8,
        rank,
        ANY_RANK,
        world_size,
        0,
        payload.len() as u64,
    );
    header.tag = rails as u64;
    make_frame(header, payload)
}

/// The lines of the table that a rank receives, or why it is refused.
pub open spec fn received_lines(
    response: Option<FrameModel>,
    unique_id: UniqueId,
    rank: u32,
    world_size: u32,
    rails: usize,
) -> Result<Seq<Seq<char>>, NetworkFailure> {
    match response {
        None => Err(invalid("coordinator closed before returning direct peer endpoints"@)),
        Some(frame) => match response_defect(frame.header, unique_id, rank, world_size, 0) {
            Some(defect) => Err(defect),
            None => if frame.header.opcode != Opcode::PeerEndpoint || frame.header.element_type
                != ElementType::U8 || frame.header.tag != rails as u64 || frame.header.element_count
                != frame.payload.len() {
                Err(invalid("coordinator returned an invalid direct peer endpoint table"@))
            } else if !valid_utf8(frame.payload) {
                Err(
                    invalid(
                        "direct peer endpoint table is not UTF-8: "@ + utf8_complaint(
                            frame.payload,
                        ),
                    ),
                )
            } else {
                Ok(lines(decode_utf8(frame.payload)))
            },
        },
    }
}

/// The lines of the coordinator's table; `None` is a closed connection.
pub fn table_entries(
    response: Option<&Frame>,
    unique_id: UniqueId,
    rank: u32,
    world_size: u32,
    rails: usize,
) -> (result: Result<Vec<String>, NetworkError>)
    ensures
        match received_lines(
            match response {
                Some(frame) => Some(frame@),
                None => None,
            },
            unique_id,
            rank,
            world_size,
            rails,
        ) {
            Ok(entries) => result is Ok && texts(result->Ok_0@) == entries,
            Err(failure) => result is Err && result->Err_0@ == failure,
        },
{
    let frame = match response {
        Some(frame) => frame,
        None => {
            return Err(
                NetworkError::invalid("coordinator closed before returning direct peer endpoints"),
            );
        },
    };
    match validate_response(frame, unique_id, rank, world_size, 0) {
        Ok(()) => {},
        Err(error) => {
            return Err(error);
        },
    }
    if frame.header.opcode != Opcode::PeerEndpoint || frame.header.element_type != ElementType::U8
        || frame.header.tag != rails as u64 || frame.header.element_count
        != frame.payload.len() as u64 {
        return Err(
            NetworkError::invalid("coordinator returned an invalid direct peer endpoint table"),
        );
    }
    match checked_text(frame.payload.as_slice()) {
        Ok(text) => Ok(split_lines(text.as_str())),
        Err(complaint) => {
            let mut message = String::from_str("direct peer endpoint table is not UTF-8: ");
            message.append(complaint.as_str());
            Err(NetworkError::InvalidConfiguration(message))
        },
    }
}

/// What an entry of the table that is no socket address is refused with.
pub fn table_entry_error(entry: &str, error: &str) -> (result: NetworkError)
    ensures
        result@ == invalid(
            "direct peer endpoint "@ + quoted(entry@) + " is invalid: "@ + error@,
        ),
{
    let mut text = String::from_str("direct peer endpoint ");
    let shown = quote(entry);
    text.append(shown.as_str());
    text.append(" is invalid: ");
    text.append(error);
    NetworkError::InvalidConfiguration(text)
}

/// The endpoints of every rank and rail, from the lines of a table.
pub open spec fn rows_of(entries: Seq<Seq<char>>, world_size: int, rails: int) -> Result<
    Seq<Seq<Seq<char>>>,
    NetworkFailure,
> {
    if entries.len() == world_size {
        Ok(Seq::new(world_size as nat, |p: int| Seq::new(rails as nat, |r: int| entries[p])))
    } else if entries.len() != world_size * rails {
        Err(
            invalid(
                "coordinator returned "@ + decimal(entries.len())
                    + " direct peer endpoints, expected "@ + decimal(world_size as nat)
                    + " shared endpoints or "@ + decimal((world_size * rails) as nat)
                    + " rail endpoints"@,
            ),
        )
    } else {
        Ok(
            Seq::new(
                world_size as nat,
                |p: int| Seq::new(rails as nat, |r: int| entries[p * rails + r]),
            ),
        )
    }
}

/// A place in a table of rows lies inside it.
proof fn lemma_place(row: int, column: int, rows: int, columns: int)
    requires
        0 <= row < rows,
        0 <= column < columns,
    ensures
        0 <= row * columns + column < rows * columns,
{
    assert(0 <= row * columns) by (nonlinear_arith)
        requires
            0 <= row,
            0 <= columns,
    ;
    assert(row * columns + columns <= rows * columns) by (nonlinear_arith)
        requires
            row + 1 <= rows,
            0 <= columns,
    ;
}

/// Lays the lines of a table out by rank and rail.
pub fn endpoint_rows(entries: &[String], world_size: u32, rails: usize) -> (result: Result<
    Vec<Vec<String>>,
    NetworkError,
>)
    requires
        world_size * rails <= usize::MAX,
    ensures
        match rows_of(texts(entries@), world_size as int, rails as int) {
            Ok(rows) => result is Ok && text_rows(result->Ok_0@) == rows,
            Err(failure) => result is Err && result->Err_0@ == failure,
        },
{
    let ghost model = texts(entries@);
    let size: usize = world_size as usize;
    let shared: bool = entries.len() == size;
    let expected: usize = size * rails;
    if !shared && entries.len() != expected {
        let mut text = String::from_str("coordinator returned ");
        push_usize(&mut text, entries.len());
        text.append(" direct peer endpoints, expected ");
        push_usize(&mut text, size);
        text.append(" shared endpoints or ");
        push_usize(&mut text, expected);
        text.append(" rail endpoints");
        return Err(NetworkError::InvalidConfiguration(text));
    }
    let ghost wanted = rows_of(model, size as int, rails as int)->Ok_0;
    let mut rows: Vec<Vec<String>> = Vec::new();
    let mut peer: usize = 0;
    while peer < size
        invariant
            peer <= size,
            size == world_size,
            size * rails <= usize::MAX,
            model == texts(entries@),
            shared == (entries@.len() == size),
            !shared ==> entries@.len() == size * rails,
            wanted == rows_of(model, size as int, rails as int)->Ok_0,
            rows@.len() == peer,
            forall|p: int| 0 <= p < peer ==> texts((#[trigger] rows@[p])@) == wanted[p],
        decreases size - peer,
    {
        let mut row: Vec<String> = Vec::new();
        let mut rail: usize = 0;
        while rail < rails
            invariant
                rail <= rails,
                peer < size,
                size * rails <= usize::MAX,
                model == texts(entries@),
                shared == (entries@.len() == size),
                !shared ==> entries@.len() == size * rails,
                wanted == rows_of(model, size as int, rails as int)->Ok_0,
                row@.len() == rail,
                forall|r: int| 0 <= r < rail ==> (#[trigger] row@[r])@ == wanted[peer as int][r],
            decreases rails - rail,
        {
            proof {
                lemma_place(peer as int, rail as int, size as int, rails as int);
            }
            let place: usize = if shared {
                peer
            } else {
                peer * rails + rail
            };
            assert(model[place as int] == entries@[place as int]@);
            row.push(String::from_str(entries[place].as_str()));
            rail = rail + 1;
        }
        assert(texts(row@) =~= wanted[peer as int]);
        rows.push(row);
        peer = peer + 1;
    }
    assert(text_rows(rows@) =~= wanted);
    Ok(rows)
}

/// The fields of a list of rail addresses: one per rail.
pub fn rail_address_fields(name: &str, value: &str, rails: usize) -> (result: Result<
    Vec<String>,
    NetworkError,
>)
    ensures
        ({
            let fields = split(value@, ',');
            if fields.len() != rails {
                result is Err && result->Err_0@ == invalid(
                    name@ + " contains "@ + decimal(fields.len()) + " addresses, expected "@
                        + decimal(rails as nat),
                )
            } else {
                result is Ok && texts(result->Ok_0@) == fields
            }
        }),
{
    let chars = chars_of(value);
    let fields = split_chars(chars.as_slice(), ',');
    let ghost model = split(value@, ',');
    assert(char_lists(fields@).len() == fields@.len());
    if fields.len() != rails {
        let mut text = String::from_str(name);
        text.append(" contains ");
        push_usize(&mut text, fields.len());
        text.append(" addresses, expected ");
        push_usize(&mut text, rails);
        return Err(NetworkError::InvalidConfiguration(text));
    }
    let mut result: Vec<String> = Vec::new();
    let mut index: usize = 0;
    while index < fields.len()
        invariant
            index <= fields@.len(),
            model == char_lists(fields@),
            result@.len() == index,
            forall|i: int| 0 <= i < index ==> (#[trigger] result@[i])@ == model[i],
        decreases fields@.len() - index,
    {
        assert(model[index as int] == fields@[index as int]@);
        result.push(text_of(fields[index].as_slice()));
        index = index + 1;
    }
    assert(texts(result@) =~= model);
    Ok(result)
}

/// What a setting that is no address is refused with; `kind` says what was
/// expected, and `rail` where in a list the field stands.
pub fn address_error(name: &str, kind: &str, value: &str, error: &str, rail: Option<usize>) -> (result:
    NetworkError)
    ensures
        ({
            let text = name@ + " must be "@ + kind@ + ", got "@ + quoted(value@) + ": "@ + error@;
            result@ == invalid(
                match rail {
                    Some(rail) => text + " (rail "@ + decimal(rail as nat) + ")"@,
                    None => text,
                },
            )
        }),
{
    let mut text = String::from_str(name);
    text.append(" must be ");
    text.append(kind);
    text.append(", got ");
    let shown = quote(value);
    text.append(shown.as_str());
    text.append(": ");
    text.append(error);
    match rail {
        Some(rail) => {
            text.append(" (rail ");
            push_usize(&mut text, rail);
            text.append(")");
        },
        None => {},
    }
    NetworkError::InvalidConfiguration(text)
}

/// Why a rank's addresses do not fit its rails.
pub open spec fn addresses_defect(listen: usize, advertise: usize, rails: usize) -> Option<
    NetworkFailure,
> {
    if listen != 1 && listen != rails {
        Some(
            invalid(
                "direct peer listen configuration contains "@ + decimal(listen as nat)
                    + " addresses, expected one shared address or "@ + decimal(rails as nat)
                    + " rail addresses"@,
            ),
        )
    } else if advertise != 0 && advertise != 1 && advertise != rails {
        Some(
            invalid(
                "direct peer advertise configuration contains "@ + decimal(advertise as nat)
                    + " addresses, expected zero, one shared address, or "@ + decimal(rails as nat)
                    + " rail addresses"@,
            ),
        )
    } else {
        None
    }
}

/// Holds the numbers of listen and advertise addresses against the rails.
pub fn validate_addresses(listen: usize, advertise: usize, rails: usize) -> (result: Result<
    (),
    NetworkError,
>)
    ensures
        checked(result, addresses_defect(listen, advertise, rails)),
{
    if listen != 1 && listen != rails {
        let mut text = String::from_str("direct peer listen configuration contains ");
        push_usize(&mut text, listen);
        text.append(" addresses, expected one shared address or ");
        push_usize(&mut text, rails);
        text.append(" rail addresses");
        return Err(NetworkError::InvalidConfiguration(text));
    }
    if advertise != 0 && advertise != 1 && advertise != rails {
        let mut text = String::from_str("direct peer advertise configuration contains ");
        push_usize(&mut text, advertise);
        text.append(" addresses, expected zero, one shared address, or ");
        push_usize(&mut text, rails);
        text.append(" rail addresses");
        return Err(NetworkError::InvalidConfiguration(text));
    }
    Ok(())
}

/// The listener of a rail, and the advertised address where one is given.
pub fn rail_addresses(rail: usize, listen: usize, advertise: usize) -> (places: (
    usize,
    Option<usize>,
))
    ensures
        places.0 == (if listen == 1 {
            0
        } else {
            rail
        }),
        places.1 == (if advertise == 0 {
            None
        } else if advertise == 1 {
            Some(0usize)
        } else {
            Some(rail)
        }),
{
    let listener: usize = if listen == 1 {
        0
    } else {
        rail
    };
    let advertised: Option<usize> = if advertise == 0 {
        None
    } else if advertise == 1 {
        Some(0)
    } else {
        Some(rail)
    };
    (listener, advertised)
}

} // verus!
