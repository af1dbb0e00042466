//! What a CAN recording file holds.

use vstd::prelude::*;
use vstd::string::*;
use crate::can::{Frame, FrameView};
use crate::text::{is_lowered, push_decimal, push_upper, push_upper_hex};
#[allow(unused_imports)]
use crate::text::{
    decimal, hex_width, lemma_decimal_reads_back, lemma_hex_reads_back, lemma_hex_shows_the_number,
    lemma_split_appends, lemma_split_has_a_part, lowered, numeral, split_at, upper_hex,
    upper_hex_padded,
};

verus! {

/// How a recording is written.
#[derive(Copy, Clone, Debug, PartialEq, Eq, Structural)]
pub enum Format {
    Csv,
    Mcap,
}

/// How a file with this extension is written.
pub fn format_for(extension: &str) -> (r: Result<Format, String>)
    ensures
        match r {
            Ok(Format::Csv) => lowered(extension@) == "csv"@,
            Ok(Format::Mcap) => lowered(extension@) == "mcap"@,
            Err(text) => lowered(extension@) != "csv"@ && lowered(extension@) != "mcap"@ && text@
                == "Choose a .mcap or .csv capture file"@,
        },
{
    if is_lowered(extension, "csv") {
        Ok(Format::Csv)
    } else if is_lowered(extension, "mcap") {
        Ok(Format::Mcap)
    } else {
        Err("Choose a .mcap or .csv capture file".to_owned())
    }
}

/// First line of a CSV recording.
pub open spec fn csv_names() -> Seq<char> {
    "sequence,host_timestamp_ns,device_timestamp_raw,channel,direction,id,extended,fd,brs,rtr,esi,ack,dlc,data"@
}

/// First line of a CSV recording.
pub fn csv_header() -> (r: &'static str)
    ensures
        r@ == csv_names(),
{
    "sequence,host_timestamp_ns,device_timestamp_raw,channel,direction,id,extended,fd,brs,rtr,esi,ack,dlc,data"
}

/// A truth value in a CSV recording.
pub open spec fn shown_bool(b: bool) -> Seq<char> {
    if b {
        "true"@
    } else {
        "false"@
    }
}

/// Bytes as pairs of hexadecimal digits, separated by spaces.
pub open spec fn shown_bytes(bytes: Seq<u8>) -> Seq<char>
    decreases bytes.len(),
{
    if bytes.len() == 0 {
        Seq::empty()
    } else if bytes.len() == 1 {
        upper_hex_padded(bytes[0] as nat, 2)
    } else {
        shown_bytes(bytes.drop_last()) + " "@ + upper_hex_padded(bytes.last() as nat, 2)
    }
}

fn push_bytes(out: &mut String, bytes: &[u8])
    ensures
        final(out)@ == old(out)@ + shown_bytes(bytes@),
{
    let mut i: usize = 0;
    assert(out@ =~= old(out)@ + shown_bytes(bytes@.take(0)));
    while i < bytes.len()
        invariant
            i <= bytes@.len(),
            out@ == old(out)@ + shown_bytes(bytes@.take(i as int)),
        decreases bytes@.len() - i,
    {
        if i > 0 {
            out.append(" ");
        }
        push_upper_hex(out, bytes[i] as u64, 2);
        i = i + 1;
        proof {
            let seen = bytes@.take(i as int);
            assert(seen.drop_last() =~= bytes@.take(i - 1));
            assert(seen.last() == bytes@[i - 1]);
            assert(out@ =~= old(out)@ + shown_bytes(seen));
        }
    }
    assert(bytes@.take(bytes@.len() as int) =~= bytes@);
}

/// A frame's line in a CSV recording.
pub open spec fn csv_line_of(f: FrameView) -> Seq<char> {
    decimal(f.sequence as nat) + ","@ + f.host_timestamp_ns + ","@ + f.device_timestamp + ","@
        + decimal(f.channel as nat) + ","@ + f.direction + ","@ + upper_hex(f.id as nat) + ","@
        + shown_bool(f.extended) + ","@ + shown_bool(f.fd) + ","@ + shown_bool(f.brs) + ","@
        + shown_bool(f.rtr) + ","@ + shown_bool(f.esi) + ","@ + shown_bool(f.ack) + ","@ + decimal(
        f.dlc as nat,
    ) + ","@ + shown_bytes(f.data)
}

fn push_bool(out: &mut String, b: bool)
    ensures
        final(out)@ == old(out)@ + shown_bool(b) + ","@,
{
    if b {
        out.append("true");
    } else {
        out.append("false");
    }
    out.append(",");
}

/// A frame's line in a CSV recording.
pub fn csv_line(f: &Frame) -> (r: String)
    ensures
        r@ == csv_line_of(f@),
{
    let mut out: String = String::new();
    push_decimal(&mut out, f.sequence);
    assert(out@ =~= decimal(f.sequence as nat));
    out.append(",");
    out.append(f.host_timestamp_ns.as_str());
    out.append(",");
    out.append(f.device_timestamp.as_str());
    out.append(",");
    push_decimal(&mut out, f.channel as u64);
    out.append(",");
    out.append(f.direction.as_str());
    out.append(",");
    push_upper(&mut out, f.id as u64);
    out.append(",");
    push_bool(&mut out, f.extended);
    push_bool(&mut out, f.fd);
    push_bool(&mut out, f.brs);
    push_bool(&mut out, f.rtr);
    push_bool(&mut out, f.esi);
    push_bool(&mut out, f.ack);
    push_decimal(&mut out, f.dlc as u64);
    out.append(",");
    push_bytes(&mut out, f.data.as_slice());
    out
}

/// The names of a recording's columns, from left to right.
pub open spec fn column_names() -> Seq<Seq<char>> {
    seq![
        "sequence"@,
        "host_timestamp_ns"@,
        "device_timestamp_raw"@,
        "channel"@,
        "direction"@,
        "id"@,
        "extended"@,
        "fd"@,
        "brs"@,
        "rtr"@,
        "esi"@,
        "ack"@,
        "dlc"@,
        "data"@,
    ]
}

/// The header names the columns, one name between every two commas.
proof fn lemma_header_names()
    ensures
        split_at(csv_names(), ',') == column_names(),
{
    reveal_strlit(
        "sequence,host_timestamp_ns,device_timestamp_raw,channel,direction,id,extended,fd,brs,rtr,esi,ack,dlc,data",
    );
    reveal_strlit("sequence");
    reveal_strlit("host_timestamp_ns");
    reveal_strlit("device_timestamp_raw");
    reveal_strlit("channel");
    reveal_strlit("direction");
    reveal_strlit("id");
    reveal_strlit("extended");
    reveal_strlit("fd");
    reveal_strlit("brs");
    reveal_strlit("rtr");
    reveal_strlit("esi");
    reveal_strlit("ack");
    reveal_strlit("dlc");
    reveal_strlit("data");
    let c = seq![','];
    let s0 = "sequence"@;
    lemma_split_has_a_part(s0, ',');
    let s1 = s0 + c + "host_timestamp_ns"@;
    lemma_split_appends(s0, "host_timestamp_ns"@, ',');
    let s2 = s1 + c + "device_timestamp_raw"@;
    lemma_split_appends(s1, "device_timestamp_raw"@, ',');
    let s3 = s2 + c + "channel"@;
    lemma_split_appends(s2, "channel"@, ',');
    let s4 = s3 + c + "direction"@;
    lemma_split_appends(s3, "direction"@, ',');
    let s5 = s4 + c + "id"@;
    lemma_split_appends(s4, "id"@, ',');
    let s6 = s5 + c + "extended"@;
    lemma_split_appends(s5, "extended"@, ',');
    let s7 = s6 + c + "fd"@;
    lemma_split_appends(s6, "fd"@, ',');
    let s8 = s7 + c + "brs"@;
    lemma_split_appends(s7, "brs"@, ',');
    let s9 = s8 + c + "rtr"@;
    lemma_split_appends(s8, "rtr"@, ',');
    let s10 = s9 + c + "esi"@;
    lemma_split_appends(s9, "esi"@, ',');
    let s11 = s10 + c + "ack"@;
    lemma_split_appends(s10, "ack"@, ',');
    let s12 = s11 + c + "dlc"@;
    lemma_split_appends(s11, "dlc"@, ',');
    let s13 = s12 + c + "data"@;
    lemma_split_appends(s12, "data"@, ',');
    assert(csv_names() =~= s13);
    assert(split_at(csv_names(), ',') =~= column_names());
}

/// The fields of a line, one after another.
spec fn line_fields(f: FrameView) -> Seq<Seq<char>> {
    seq![
        decimal(f.sequence as nat),
        f.host_timestamp_ns,
        f.device_timestamp,
        decimal(f.channel as nat),
        f.direction,
        upper_hex(f.id as nat),
    ] + seq![
        shown_bool(f.extended),
        shown_bool(f.fd),
        shown_bool(f.brs),
        shown_bool(f.rtr),
        shown_bool(f.esi),
        shown_bool(f.ack),
    ] + seq![decimal(f.dlc as nat), shown_bytes(f.data)]
}

proof fn lemma_first_fields(f: FrameView)
    requires
        !f.host_timestamp_ns.contains(','),
        !f.device_timestamp.contains(','),
        !f.direction.contains(','),
    ensures
        split_at(
            decimal(f.sequence as nat) + ","@ + f.host_timestamp_ns + ","@ + f.device_timestamp
                + ","@ + decimal(f.channel as nat) + ","@ + f.direction + ","@ + upper_hex(
                f.id as nat,
            ),
            ',',
        ) == seq![
            decimal(f.sequence as nat),
            f.host_timestamp_ns,
            f.device_timestamp,
            decimal(f.channel as nat),
            f.direction,
            upper_hex(f.id as nat),
        ],
{
    lemma_number_fields(f);
    let s0 = decimal(f.sequence as nat);
    lemma_split_has_a_part(s0, ',');
    let p0 = seq![s0];
    let s1 = s0 + ","@ + f.host_timestamp_ns;
    lemma_one_more_field(s0, p0, f.host_timestamp_ns);
    let p1 = p0.push(f.host_timestamp_ns);
    let s2 = s1 + ","@ + f.device_timestamp;
    lemma_one_more_field(s1, p1, f.device_timestamp);
    let p2 = p1.push(f.device_timestamp);
    let s3 = s2 + ","@ + decimal(f.channel as nat);
    lemma_one_more_field(s2, p2, decimal(f.channel as nat));
    let p3 = p2.push(decimal(f.channel as nat));
    let s4 = s3 + ","@ + f.direction;
    lemma_one_more_field(s3, p3, f.direction);
    let p4 = p3.push(f.direction);
    lemma_one_more_field(s4, p4, upper_hex(f.id as nat));
}

proof fn lemma_flag_fields(s: Seq<char>, fields: Seq<Seq<char>>, a: bool, b: bool, c: bool)
    requires
        split_at(s, ',') == fields,
    ensures
        split_at(
            s + ","@ + shown_bool(a) + ","@ + shown_bool(b) + ","@ + shown_bool(c),
            ',',
        ) == fields.push(shown_bool(a)).push(shown_bool(b)).push(shown_bool(c)),
{
    lemma_flag_has_no_comma(a);
    lemma_flag_has_no_comma(b);
    lemma_flag_has_no_comma(c);
    let s1 = s + ","@ + shown_bool(a);
    lemma_one_more_field(s, fields, shown_bool(a));
    let s2 = s1 + ","@ + shown_bool(b);
    lemma_one_more_field(s1, fields.push(shown_bool(a)), shown_bool(b));
    lemma_one_more_field(s2, fields.push(shown_bool(a)).push(shown_bool(b)), shown_bool(c));
}

proof fn lemma_line_fields(f: FrameView)
    requires
        !f.host_timestamp_ns.contains(','),
        !f.device_timestamp.contains(','),
        !f.direction.contains(','),
    ensures
        split_at(csv_line_of(f), ',') == line_fields(f),
{
    lemma_number_fields(f);
    lemma_bytes_are_spelled(f.data);
    lemma_first_fields(f);
    let s = decimal(f.sequence as nat) + ","@ + f.host_timestamp_ns + ","@ + f.device_timestamp
        + ","@ + decimal(f.channel as nat) + ","@ + f.direction + ","@ + upper_hex(f.id as nat);
    let p = split_at(s, ',');
    lemma_flag_fields(s, p, f.extended, f.fd, f.brs);
    let s3 = s + ","@ + shown_bool(f.extended) + ","@ + shown_bool(f.fd) + ","@ + shown_bool(f.brs);
    let p3 = split_at(s3, ',');
    lemma_flag_fields(s3, p3, f.rtr, f.esi, f.ack);
    let s6 = s3 + ","@ + shown_bool(f.rtr) + ","@ + shown_bool(f.esi) + ","@ + shown_bool(f.ack);
    let p6 = split_at(s6, ',');
    lemma_one_more_field(s6, p6, decimal(f.dlc as nat));
    let s7 = s6 + ","@ + decimal(f.dlc as nat);
    let p7 = p6.push(decimal(f.dlc as nat));
    lemma_one_more_field(s7, p7, shown_bytes(f.data));
    assert(p7.push(shown_bytes(f.data)) =~= line_fields(f));
}

/// Numbers in a line hold no comma.
proof fn lemma_number_fields(f: FrameView)
    ensures
        !decimal(f.sequence as nat).contains(','),
        !decimal(f.channel as nat).contains(','),
        !decimal(f.dlc as nat).contains(','),
        !upper_hex(f.id as nat).contains(','),
{
    lemma_decimal_reads_back(f.sequence as nat);
    lemma_decimal_reads_back(f.channel as nat);
    lemma_decimal_reads_back(f.dlc as nat);
    lemma_hex_reads_back(f.id as nat, hex_width(f.id as nat));
}

proof fn lemma_flag_has_no_comma(b: bool)
    ensures
        !shown_bool(b).contains(','),
{
    reveal_strlit("true");
    reveal_strlit("false");
}

/// A comma and a field behind a line add that field to it.
proof fn lemma_one_more_field(s: Seq<char>, fields: Seq<Seq<char>>, field: Seq<char>)
    requires
        split_at(s, ',') == fields,
        !field.contains(','),
    ensures
        split_at(s + ","@ + field, ',') == fields.push(field),
{
    reveal_strlit(",");
    assert(","@ =~= seq![',']);
    lemma_split_appends(s, field, ',');
}

/// What a recording says of a frame under each name of its header: split at the
/// commas, the line has a field for every name, and the field under a name is what
/// the frame has of that name. Numbers are decimal but for the id, which is
/// hexadecimal; flags are `true` or `false`. The frame's texts hold no comma.
pub proof fn lemma_a_line_is_read_by_its_header(f: FrameView)
    requires
        !f.host_timestamp_ns.contains(','),
        !f.device_timestamp.contains(','),
        !f.direction.contains(','),
    ensures
        ({
            let names = split_at(csv_names(), ',');
            let line = split_at(csv_line_of(f), ',');
            let flag = |b: bool|
                if b {
                    "true"@
                } else {
                    "false"@
                };
            &&& names.len() == 14 && line.len() == 14
            &&& names[0] == "sequence"@ && numeral(line[0], 10) == f.sequence
            &&& names[1] == "host_timestamp_ns"@ && line[1] == f.host_timestamp_ns
            &&& names[2] == "device_timestamp_raw"@ && line[2] == f.device_timestamp
            &&& names[3] == "channel"@ && numeral(line[3], 10) == f.channel
            &&& names[4] == "direction"@ && line[4] == f.direction
            &&& names[5] == "id"@ && numeral(line[5], 16) == f.id
            &&& names[6] == "extended"@ && line[6] == flag(f.extended)
            &&& names[7] == "fd"@ && line[7] == flag(f.fd)
            &&& names[8] == "brs"@ && line[8] == flag(f.brs)
            &&& names[9] == "rtr"@ && line[9] == flag(f.rtr)
            &&& names[10] == "esi"@ && line[10] == flag(f.esi)
            &&& names[11] == "ack"@ && line[11] == flag(f.ack)
            &&& names[12] == "dlc"@ && numeral(line[12], 10) == f.dlc
            &&& names[13] == "data"@ && spelled(line[13], f.data)
        }),
{
    lemma_header_names();
    lemma_line_fields(f);
    lemma_decimal_reads_back(f.sequence as nat);
    lemma_decimal_reads_back(f.channel as nat);
    lemma_decimal_reads_back(f.dlc as nat);
    lemma_hex_shows_the_number(f.id as nat);
    lemma_bytes_are_spelled(f.data);
}

/// Whether a text spells bytes: two hexadecimal digits each, with one space
/// between every two of them.
pub open spec fn spelled(text: Seq<char>, bytes: Seq<u8>) -> bool {
    &&& bytes.len() == 0 ==> text.len() == 0
    &&& bytes.len() > 0 ==> text.len() == 3 * bytes.len() - 1
    &&& forall|i: int|
        0 <= i < bytes.len() ==> numeral(text.subrange(3 * i, 3 * i + 2), 16)
            == #[trigger] bytes[i]
    &&& forall|i: int| 0 <= i < text.len() && i % 3 == 2 ==> #[trigger] text[i] == ' '
}

/// The bytes of a frame are spelled in order, without a comma.
proof fn lemma_bytes_are_spelled(bytes: Seq<u8>)
    ensures
        spelled(shown_bytes(bytes), bytes),
        !shown_bytes(bytes).contains(','),
    decreases bytes.len(),
{
    reveal_strlit(" ");
    let text = shown_bytes(bytes);
    if bytes.len() > 0 {
        let n = bytes.len() - 1;
        let last = upper_hex_padded(bytes.last() as nat, 2);
        lemma_hex_reads_back(bytes.last() as nat, 2);
        assert(vstd::arithmetic::power::pow(16, 2) == 256) by {
            reveal_with_fuel(vstd::arithmetic::power::pow, 4);
        }
        let rest = bytes.drop_last();
        lemma_bytes_are_spelled(rest);
        let before = shown_bytes(rest);
        assert(text.subrange(3 * n, 3 * n + 2) =~= last);
        assert forall|i: int| 0 <= i < bytes.len() implies numeral(
            text.subrange(3 * i, 3 * i + 2),
            16,
        ) == #[trigger] bytes[i] by {
            if i == n {
                assert(bytes[i] == bytes.last());
                assert(bytes.last() as nat % 256 == bytes.last());
            } else {
                assert(rest[i] == bytes[i]);
                assert(text.subrange(3 * i, 3 * i + 2) =~= before.subrange(3 * i, 3 * i + 2));
            }
        }
        assert forall|i: int| 0 <= i < text.len() implies text[i] != ',' by {
            if n > 0 && i < before.len() {
                assert(before.contains(before[i]));
            }
        }
    }
}

} // verus!
