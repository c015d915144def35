//! Opportunity records and their CSV rows.
//!
//! A discovered opportunity is persisted as one row of an append-only CSV
//! file: timestamp, cycle length, real rate, surface rate, and up to eight
//! distinct assets.  The fields are rendered and parsed by the verified
//! decimal code; only the comma joining and splitting of one record goes
//! through the `csv` crate, behind trusted wrappers whose contracts cover
//! exactly the plain fields this module produces.

use vstd::prelude::*;
use vstd::string::StringExecFns;
use csv::{ReaderBuilder, WriterBuilder};
use crate::bellmanford::Edge;
use crate::decimal::{
    dec_digits, format_fp, format_fp_signed, format_u64, parse_fp, parse_fp_signed, parse_u64,
    spec_format_fp, spec_format_fp_signed,
};
use crate::fixed::SCALE;
use crate::strutil::str_eq;

verus! {

/// One persisted opportunity.
#[derive(Debug)]
pub struct ArbData {
    pub timestamp: u64,
    pub arb_length: usize,
    pub arb_rate: u64,
    pub arb_surface: i64,
    pub asset_0: Option<String>,
    pub asset_1: Option<String>,
    pub asset_2: Option<String>,
    pub asset_3: Option<String>,
    pub asset_4: Option<String>,
    pub asset_5: Option<String>,
    pub asset_6: Option<String>,
    pub asset_7: Option<String>,
}

/// Appends a name to the list unless present.
pub open spec fn insert_asset(acc: Seq<Seq<char>>, s: Seq<char>) -> Seq<Seq<char>> {
    if acc.contains(s) {
        acc
    } else {
        acc.push(s)
    }
}

/// The distinct assets of the first `n` legs of a cycle, in first
/// appearance order, source before target.
pub open spec fn spec_cycle_assets(cycle: Seq<Edge>, n: int) -> Seq<Seq<char>>
    decreases n,
{
    if n <= 0 {
        Seq::empty()
    } else {
        insert_asset(
            insert_asset(spec_cycle_assets(cycle, n - 1), cycle[n - 1].from@),
            cycle[n - 1].to@,
        )
    }
}

/// Collects the distinct assets of a cycle in first-appearance order.
pub fn cycle_assets(cycle: &Vec<Edge>) -> (r: Vec<String>)
    ensures
        r@.map_values(|s: String| s@) == spec_cycle_assets(cycle@, cycle@.len() as int),
{
    let mut assets: Vec<String> = Vec::new();
    let mut i: usize = 0;
    while i < cycle.len()
        invariant
            i <= cycle@.len(),
            assets@.map_values(|s: String| s@) == spec_cycle_assets(cycle@, i as int),
        decreases cycle@.len() - i,
    {
        push_unique(&mut assets, &cycle[i].from);
        push_unique(&mut assets, &cycle[i].to);
        i = i + 1;
    }
    assets
}

/// Appends a name unless an equal one is present.
fn push_unique(assets: &mut Vec<String>, name: &String)
    ensures
        final(assets)@.map_values(|s: String| s@) == insert_asset(
            old(assets)@.map_values(|s: String| s@),
            name@,
        ),
{
    let ghost names = assets@.map_values(|s: String| s@);
    let mut j: usize = 0;
    while j < assets.len()
        invariant
            assets@.map_values(|s: String| s@) == names,
            names.len() == assets@.len(),
            j <= assets@.len(),
            forall|k: int| 0 <= k < j ==> names[k] != name@,
        decreases assets@.len() - j,
    {
        proof {
            assert(names[j as int] == assets@[j as int]@);
        }
        if str_eq(assets[j].as_str(), name.as_str()) {
            proof {
                assert(names.contains(name@));
            }
            return ;
        }
        j = j + 1;
    }
    proof {
        assert(!names.contains(name@));
    }
    let ghost pre = assets@;
    assets.push(name.clone());
    proof {
        assert(assets@.map_values(|s: String| s@) =~= names.push(name@)) by {
            assert forall|k: int| 0 <= k < assets@.len() implies assets@.map_values(
                |s: String| s@,
            )[k] == names.push(name@)[k] by {
                if k < pre.len() {
                    assert(assets@[k] == pre[k]);
                    assert(names[k] == pre[k]@);
                }
            }
        }
    }
}

/// Builds the record of a discovered cycle: its timestamp, length, rates,
/// and up to the first eight distinct assets.
pub fn arb_data_from_cycle(cycle: &Vec<Edge>, timestamp: u64, arb_rate: u64, arb_surface: i64) -> (r:
    ArbData)
    ensures
        r.timestamp == timestamp,
        r.arb_length == cycle@.len(),
        r.arb_rate == arb_rate,
        r.arb_surface == arb_surface,
        asset_slot(r.asset_0, spec_cycle_assets(cycle@, cycle@.len() as int), 0),
        asset_slot(r.asset_1, spec_cycle_assets(cycle@, cycle@.len() as int), 1),
        asset_slot(r.asset_2, spec_cycle_assets(cycle@, cycle@.len() as int), 2),
        asset_slot(r.asset_3, spec_cycle_assets(cycle@, cycle@.len() as int), 3),
        asset_slot(r.asset_4, spec_cycle_assets(cycle@, cycle@.len() as int), 4),
        asset_slot(r.asset_5, spec_cycle_assets(cycle@, cycle@.len() as int), 5),
        asset_slot(r.asset_6, spec_cycle_assets(cycle@, cycle@.len() as int), 6),
        asset_slot(r.asset_7, spec_cycle_assets(cycle@, cycle@.len() as int), 7),
{
    let assets = cycle_assets(cycle);
    ArbData {
        timestamp,
        arb_length: cycle.len(),
        arb_rate,
        arb_surface,
        asset_0: asset_at(&assets, 0),
        asset_1: asset_at(&assets, 1),
        asset_2: asset_at(&assets, 2),
        asset_3: asset_at(&assets, 3),
        asset_4: asset_at(&assets, 4),
        asset_5: asset_at(&assets, 5),
        asset_6: asset_at(&assets, 6),
        asset_7: asset_at(&assets, 7),
    }
}

/// The record slot holds the asset at this position, when there is one.
pub open spec fn asset_slot(slot: Option<String>, assets: Seq<Seq<char>>, k: int) -> bool {
    if k < assets.len() {
        slot matches Some(s) && s@ == assets[k]
    } else {
        slot is None
    }
}

/// The asset at one position, when there is one.
fn asset_at(assets: &Vec<String>, k: usize) -> (r: Option<String>)
    ensures
        asset_slot(r, assets@.map_values(|s: String| s@), k as int),
{
    if k < assets.len() {
        proof {
            assert(assets@.map_values(|s: String| s@)[k as int] == assets@[k as int]@);
        }
        Some(assets[k].clone())
    } else {
        None
    }
}

/// A field that needs no quoting in a CSV record.
pub open spec fn field_plain(s: Seq<char>) -> bool {
    forall|i: int|
        0 <= i < s.len() ==> #[trigger] s[i] != ',' && s[i] != '"' && s[i] != '\n' && s[i] != '\r'
}

/// Every field of a record is plain.
pub open spec fn fields_plain(fs: Seq<Seq<char>>) -> bool {
    forall|i: int| 0 <= i < fs.len() ==> field_plain(#[trigger] fs[i])
}

/// The CSV line of plain fields: comma-joined, newline-terminated.
pub open spec fn spec_csv_line(fs: Seq<Seq<char>>) -> Seq<char>
    decreases fs.len(),
{
    if fs.len() == 0 {
        seq!['\n']
    } else if fs.len() == 1 {
        fs[0] + seq!['\n']
    } else {
        spec_csv_line(fs.drop_last()).drop_last() + seq![','] + fs.last() + seq!['\n']
    }
}

/// What writing a record promises: a record of plain fields whose first
/// field is non-empty is written as the fields joined by commas and
/// terminated by one newline.  (A record consisting of one empty field is
/// excluded: the writer quotes it to keep it distinct from an empty
/// record.)
pub open spec fn csv_write_post(fields: Seq<Seq<char>>, r: Option<String>) -> bool {
    fields_plain(fields) && fields.len() > 0 && fields[0].len() > 0 ==> (r matches Some(line)
        && line@ == spec_csv_line(fields))
}

/// Relies on `csv::Writer` over an in-memory buffer with its defaults
/// (comma delimiter, newline terminator, quoting only where needed); see
/// [`csv_write_post`].  `None` when the writer fails or the bytes are not
/// text (neither happens for plain fields).
#[verifier::external_body]
fn csv_write_record(fields: &Vec<String>) -> (r: Option<String>)
    ensures
        csv_write_post(fields@.map_values(|s: String| s@), r),
{
    let mut wtr = WriterBuilder::new().has_headers(false).from_writer(Vec::new());
    if wtr.write_record(fields.iter()).is_err() {
        return None;
    }
    match wtr.into_inner() {
        Err(_) => None,
        Ok(bytes) => match String::from_utf8(bytes) {
            Err(_) => None,
            Ok(s) => Some(s),
        },
    }
}

/// What reading a record promises: a line that is the comma-joining of
/// plain fields (the first non-empty and not opening with a byte-order
/// mark, which the reader strips from the start of its input) splits back
/// into exactly those fields.
pub open spec fn csv_parse_post(line: Seq<char>, r: Option<Vec<String>>) -> bool {
    forall|fs: Seq<Seq<char>>|
        #![trigger spec_csv_line(fs)]
        fields_plain(fs) && fs.len() > 0 && fs[0].len() > 0 && (fs[0][0] as u32) != 65279
            && line == spec_csv_line(fs) ==> (r matches Some(fields) && fields@.map_values(
            |s: String| s@,
        ) == fs)
}

/// Relies on `csv::Reader` with its defaults and headers off; see
/// [`csv_parse_post`].
#[verifier::external_body]
fn csv_parse_record(line: &str) -> (r: Option<Vec<String>>)
    ensures
        csv_parse_post(line@, r),
{
    let mut rdr = ReaderBuilder::new().has_headers(false).from_reader(line.as_bytes());
    let mut record = csv::StringRecord::new();
    match rdr.read_record(&mut record) {
        Err(_) => None,
        Ok(false) => None,
        Ok(true) => Some(record.iter().map(|f| f.to_string()).collect()),
    }
}

/// The header row of the opportunity file.
pub fn arb_header() -> (r: &'static str)
    ensures
        r@ == "timestamp,arb_length,arb_rate,arb_surface,asset_0,asset_1,asset_2,asset_3,asset_4,asset_5,asset_6,asset_7\n"@,
{
    "timestamp,arb_length,arb_rate,arb_surface,asset_0,asset_1,asset_2,asset_3,asset_4,asset_5,asset_6,asset_7\n"
}

/// An asset slot as a field: the name, or empty.
fn slot_field(slot: &Option<String>) -> (r: String)
    ensures
        r@ == (match *slot {
            Some(s) => s@,
            None => Seq::<char>::empty(),
        }),
{
    match slot {
        Some(s) => s.clone(),
        None => String::new(),
    }
}

/// The twelve fields of one record, in column order.
pub fn row_fields(data: &ArbData) -> (r: Vec<String>)
    requires
        data.arb_rate + SCALE <= u64::MAX,
        data.arb_surface > i64::MIN,
        data.arb_surface < i64::MAX - SCALE,
    ensures
        r@.len() == 12,
        r@[0]@ == dec_digits(data.timestamp as nat),
        r@[1]@ == dec_digits(data.arb_length as nat),
        r@[2]@ == spec_format_fp(data.arb_rate, 8),
        r@[3]@ == spec_format_fp_signed(data.arb_surface),
        r@[4]@ == (match data.asset_0 {
            Some(s) => s@,
            None => Seq::<char>::empty(),
        }),
        r@[5]@ == (match data.asset_1 {
            Some(s) => s@,
            None => Seq::<char>::empty(),
        }),
        r@[6]@ == (match data.asset_2 {
            Some(s) => s@,
            None => Seq::<char>::empty(),
        }),
        r@[7]@ == (match data.asset_3 {
            Some(s) => s@,
            None => Seq::<char>::empty(),
        }),
        r@[8]@ == (match data.asset_4 {
            Some(s) => s@,
            None => Seq::<char>::empty(),
        }),
        r@[9]@ == (match data.asset_5 {
            Some(s) => s@,
            None => Seq::<char>::empty(),
        }),
        r@[10]@ == (match data.asset_6 {
            Some(s) => s@,
            None => Seq::<char>::empty(),
        }),
        r@[11]@ == (match data.asset_7 {
            Some(s) => s@,
            None => Seq::<char>::empty(),
        }),
{
    let mut r: Vec<String> = Vec::new();
    r.push(format_u64(data.timestamp));
    r.push(format_u64(data.arb_length as u64));
    r.push(format_fp(data.arb_rate, 8));
    r.push(format_fp_signed(data.arb_surface));
    r.push(slot_field(&data.asset_0));
    r.push(slot_field(&data.asset_1));
    r.push(slot_field(&data.asset_2));
    r.push(slot_field(&data.asset_3));
    r.push(slot_field(&data.asset_4));
    r.push(slot_field(&data.asset_5));
    r.push(slot_field(&data.asset_6));
    r.push(slot_field(&data.asset_7));
    r
}

/// Encodes one record as its CSV row.  Succeeds whenever the asset names
/// are plain text (numbers always are); the surrounding process appends the
/// returned line, after the header when the file is new.
pub fn arb_row_line(data: &ArbData) -> (r: Option<String>)
    requires
        data.arb_rate + SCALE <= u64::MAX,
        data.arb_surface > i64::MIN,
        data.arb_surface < i64::MAX - SCALE,
    ensures
        ({
            let fs = Seq::new(
                12nat,
                |i: int| record_field_view(*data, i),
            );
            fields_plain(fs) ==> (r matches Some(line) && line@ == spec_csv_line(fs))
        }),
{
    let fields = row_fields(data);
    let r = csv_write_record(&fields);
    proof {
        let fs = Seq::new(12nat, |i: int| record_field_view(*data, i));
        crate::decimal::lemma_dec_digits_wf(data.timestamp as nat);
        assert(fs[0].len() > 0);
        if fields_plain(fs) {
            assert(fields@.map_values(|s: String| s@) =~= fs);
        }
    }
    r
}

/// The view of one record column.
pub open spec fn record_field_view(data: ArbData, i: int) -> Seq<char> {
    if i == 0 {
        dec_digits(data.timestamp as nat)
    } else if i == 1 {
        dec_digits(data.arb_length as nat)
    } else if i == 2 {
        spec_format_fp(data.arb_rate, 8)
    } else if i == 3 {
        spec_format_fp_signed(data.arb_surface)
    } else {
        let slot = if i == 4 {
            data.asset_0
        } else if i == 5 {
            data.asset_1
        } else if i == 6 {
            data.asset_2
        } else if i == 7 {
            data.asset_3
        } else if i == 8 {
            data.asset_4
        } else if i == 9 {
            data.asset_5
        } else if i == 10 {
            data.asset_6
        } else {
            data.asset_7
        };
        match slot {
            Some(s) => s@,
            None => Seq::<char>::empty(),
        }
    }
}

/// Splits a CSV row back into its fields.
pub fn parse_row_fields(line: &str) -> (r: Option<Vec<String>>)
    ensures
        csv_parse_post(line@, r),
{
    csv_parse_record(line)
}

/// A line rendered from a normal record splits back into exactly that
/// record's columns.
proof fn lemma_line_fields(data: ArbData, line: Seq<char>, parsed: Option<Vec<String>>)
    requires
        record_normal(data),
        line == spec_csv_line(record_fields(data)),
        csv_parse_post(line, parsed),
    ensures
        parsed matches Some(fields) && fields@.map_values(|s: String| s@) == record_fields(data),
{
    lemma_record_fields_normal(data);
    assert((record_fields(data)[0][0] as u32) != 65279) by {
        assert(crate::decimal::is_digit(record_fields(data)[0][0]));
    }
}

/// Decodes one persisted row back into a record; the asset columns read
/// back as present exactly when non-empty.  A row rendered from a normal
/// record (numbers in range, asset slots absent or plain non-empty names)
/// decodes to that record.
pub fn parse_arb_row(line: &str) -> (r: Option<ArbData>)
    ensures
        forall|data: ArbData|
            #![trigger spec_csv_line(record_fields(data))]
            record_normal(data) && line@ == spec_csv_line(record_fields(data)) ==> (
            r matches Some(d) && d.timestamp == data.timestamp && d.arb_length == data.arb_length
                && d.arb_rate == data.arb_rate && d.arb_surface == data.arb_surface && slot_view(
                d.asset_0,
            ) == slot_view(data.asset_0) && slot_view(d.asset_1) == slot_view(data.asset_1)
                && slot_view(d.asset_2) == slot_view(data.asset_2) && slot_view(d.asset_3)
                == slot_view(data.asset_3) && slot_view(d.asset_4) == slot_view(data.asset_4)
                && slot_view(d.asset_5) == slot_view(data.asset_5) && slot_view(d.asset_6)
                == slot_view(data.asset_6) && slot_view(d.asset_7) == slot_view(data.asset_7)),
{
    let parsed = parse_row_fields(line);
    let fields = match parsed {
        None => {
            proof {
                assert forall|data: ArbData|
                    record_normal(data) && line@ == spec_csv_line(
                        #[trigger] record_fields(data),
                    ) implies false by {
                    lemma_line_fields(data, line@, None);
                }
            }
            return None;
        },
        Some(f) => f,
    };
    proof {
        assert forall|data: ArbData|
            record_normal(data) && line@ == spec_csv_line(
                #[trigger] record_fields(data),
            ) implies fields@.map_values(|s: String| s@) == record_fields(data) by {
            lemma_line_fields(data, line@, Some(fields));
        }
    }
    if fields.len() != 12 {
        return None;
    }
    let timestamp = match parse_u64(fields[0].as_str()) {
        None => {
            proof {
                assert forall|data: ArbData|
                    record_normal(data) && line@ == spec_csv_line(
                        #[trigger] record_fields(data),
                    ) implies false by {
                    assert(fields@.map_values(|s: String| s@)[0] == record_fields(data)[0]);
                    lemma_record_fields_round_trip(data);
                }
            }
            return None;
        },
        Some(v) => v,
    };
    let arb_length = match parse_u64(fields[1].as_str()) {
        None => {
            proof {
                assert forall|data: ArbData|
                    record_normal(data) && line@ == spec_csv_line(
                        #[trigger] record_fields(data),
                    ) implies false by {
                    assert(fields@.map_values(|s: String| s@)[1] == record_fields(data)[1]);
                    lemma_record_fields_round_trip(data);
                }
            }
            return None;
        },
        Some(v) => v as usize,
    };
    let arb_rate = match parse_fp(fields[2].as_str()) {
        None => {
            proof {
                assert forall|data: ArbData|
                    record_normal(data) && line@ == spec_csv_line(
                        #[trigger] record_fields(data),
                    ) implies false by {
                    assert(fields@.map_values(|s: String| s@)[2] == record_fields(data)[2]);
                    lemma_record_fields_round_trip(data);
                }
            }
            return None;
        },
        Some(v) => v,
    };
    let arb_surface = match parse_fp_signed(fields[3].as_str()) {
        None => {
            proof {
                assert forall|data: ArbData|
                    record_normal(data) && line@ == spec_csv_line(
                        #[trigger] record_fields(data),
                    ) implies false by {
                    assert(fields@.map_values(|s: String| s@)[3] == record_fields(data)[3]);
                    lemma_record_fields_round_trip(data);
                }
            }
            return None;
        },
        Some(v) => v,
    };
    let a0 = nonempty_slot(&fields[4]);
    let a1 = nonempty_slot(&fields[5]);
    let a2 = nonempty_slot(&fields[6]);
    let a3 = nonempty_slot(&fields[7]);
    let a4 = nonempty_slot(&fields[8]);
    let a5 = nonempty_slot(&fields[9]);
    let a6 = nonempty_slot(&fields[10]);
    let a7 = nonempty_slot(&fields[11]);
    let r = Some(
        ArbData {
            timestamp,
            arb_length,
            arb_rate,
            arb_surface,
            asset_0: a0,
            asset_1: a1,
            asset_2: a2,
            asset_3: a3,
            asset_4: a4,
            asset_5: a5,
            asset_6: a6,
            asset_7: a7,
        },
    );
    proof {
        assert forall|data: ArbData|
            record_normal(data) && line@ == spec_csv_line(
                #[trigger] record_fields(data),
            ) implies (r matches Some(d) && d.timestamp == data.timestamp && d.arb_length
            == data.arb_length && d.arb_rate == data.arb_rate && d.arb_surface == data.arb_surface
            && slot_view(d.asset_0) == slot_view(data.asset_0) && slot_view(d.asset_1)
            == slot_view(data.asset_1) && slot_view(d.asset_2) == slot_view(data.asset_2)
            && slot_view(d.asset_3) == slot_view(data.asset_3) && slot_view(d.asset_4)
            == slot_view(data.asset_4) && slot_view(d.asset_5) == slot_view(data.asset_5)
            && slot_view(d.asset_6) == slot_view(data.asset_6) && slot_view(d.asset_7)
            == slot_view(data.asset_7)) by {
            lemma_record_fields_round_trip(data);
            let fv = fields@.map_values(|s: String| s@);
            assert(fv == record_fields(data));
            assert(fields@[0]@ == record_fields(data)[0]) by {
                assert(fv[0] == record_fields(data)[0]);
            }
            assert(fields@[1]@ == record_fields(data)[1]) by {
                assert(fv[1] == record_fields(data)[1]);
            }
            assert(fields@[2]@ == record_fields(data)[2]) by {
                assert(fv[2] == record_fields(data)[2]);
            }
            assert(fields@[3]@ == record_fields(data)[3]) by {
                assert(fv[3] == record_fields(data)[3]);
            }
            assert forall|k: int| 4 <= k < 12 implies fields@[k]@ == record_fields(data)[k] by {
                assert(fv[k] == record_fields(data)[k]);
            }
            assert(timestamp == data.timestamp);
            assert(arb_length == data.arb_length);
            assert(arb_rate == data.arb_rate);
            assert(arb_surface == data.arb_surface);
            assert(slot_view(a0) == slot_view(data.asset_0)) by {
                match data.asset_0 {
                    Some(name) => {
                        assert(record_fields(data)[4] == name@);
                    },
                    None => {
                        assert(record_fields(data)[4] == Seq::<char>::empty());
                    },
                }
            }
            assert(slot_view(a1) == slot_view(data.asset_1)) by {
                match data.asset_1 {
                    Some(name) => {
                        assert(record_fields(data)[5] == name@);
                    },
                    None => {
                        assert(record_fields(data)[5] == Seq::<char>::empty());
                    },
                }
            }
            assert(slot_view(a2) == slot_view(data.asset_2)) by {
                match data.asset_2 {
                    Some(name) => {
                        assert(record_fields(data)[6] == name@);
                    },
                    None => {
                        assert(record_fields(data)[6] == Seq::<char>::empty());
                    },
                }
            }
            assert(slot_view(a3) == slot_view(data.asset_3)) by {
                match data.asset_3 {
                    Some(name) => {
                        assert(record_fields(data)[7] == name@);
                    },
                    None => {
                        assert(record_fields(data)[7] == Seq::<char>::empty());
                    },
                }
            }
            assert(slot_view(a4) == slot_view(data.asset_4)) by {
                match data.asset_4 {
                    Some(name) => {
                        assert(record_fields(data)[8] == name@);
                    },
                    None => {
                        assert(record_fields(data)[8] == Seq::<char>::empty());
                    },
                }
            }
            assert(slot_view(a5) == slot_view(data.asset_5)) by {
                match data.asset_5 {
                    Some(name) => {
                        assert(record_fields(data)[9] == name@);
                    },
                    None => {
                        assert(record_fields(data)[9] == Seq::<char>::empty());
                    },
                }
            }
            assert(slot_view(a6) == slot_view(data.asset_6)) by {
                match data.asset_6 {
                    Some(name) => {
                        assert(record_fields(data)[10] == name@);
                    },
                    None => {
                        assert(record_fields(data)[10] == Seq::<char>::empty());
                    },
                }
            }
            assert(slot_view(a7) == slot_view(data.asset_7)) by {
                match data.asset_7 {
                    Some(name) => {
                        assert(record_fields(data)[11] == name@);
                    },
                    None => {
                        assert(record_fields(data)[11] == Seq::<char>::empty());
                    },
                }
            }
        }
    }
    r
}

/// A non-empty column as a present asset.
fn nonempty_slot(field: &String) -> (r: Option<String>)
    ensures
        field@.len() == 0 ==> r is None,
        field@.len() > 0 ==> (r matches Some(s) && s@ == field@),
{
    if field.as_str().unicode_len() == 0 {
        None
    } else {
        Some(field.clone())
    }
}


/// Persisted rows round-trip: each numeric column of a record parses back
/// to exactly the value it was rendered from.
pub proof fn lemma_record_fields_round_trip(data: ArbData)
    requires
        data.arb_rate + SCALE <= u64::MAX,
        data.arb_surface > i64::MIN,
        data.arb_surface < i64::MAX - SCALE,
    ensures
        crate::decimal::spec_parse_u64(record_field_view(data, 0)) == Some(data.timestamp),
        crate::decimal::spec_parse_u64(record_field_view(data, 1)) == Some(
            data.arb_length as u64,
        ),
        crate::decimal::spec_parse_fp(record_field_view(data, 2)) == Some(data.arb_rate),
        crate::decimal::spec_parse_fp_signed(record_field_view(data, 3)) == Some(
            data.arb_surface,
        ),
{
    crate::decimal::lemma_parse_format_u64(data.timestamp);
    crate::decimal::lemma_parse_format_u64(data.arb_length as u64);
    crate::decimal::lemma_parse_format_exact(data.arb_rate);
    crate::decimal::lemma_parse_format_signed(data.arb_surface);
}


/// A record whose numbers leave rendering headroom.
pub open spec fn record_in_range(data: ArbData) -> bool {
    &&& data.arb_rate + SCALE <= u64::MAX
    &&& data.arb_surface > i64::MIN
    &&& data.arb_surface < i64::MAX - SCALE
}

/// An asset slot that is absent or holds a plain, non-empty name.
pub open spec fn slot_normal(slot: Option<String>) -> bool {
    match slot {
        None => true,
        Some(s) => s@.len() > 0 && field_plain(s@),
    }
}

/// A record the CSV layer round-trips: numbers in range, every asset slot
/// absent or a plain non-empty name.
pub open spec fn record_normal(data: ArbData) -> bool {
    &&& record_in_range(data)
    &&& slot_normal(data.asset_0)
    &&& slot_normal(data.asset_1)
    &&& slot_normal(data.asset_2)
    &&& slot_normal(data.asset_3)
    &&& slot_normal(data.asset_4)
    &&& slot_normal(data.asset_5)
    &&& slot_normal(data.asset_6)
    &&& slot_normal(data.asset_7)
}

/// The twelve columns of a record, by view.
pub open spec fn record_fields(data: ArbData) -> Seq<Seq<char>> {
    Seq::new(12nat, |i: int| record_field_view(data, i))
}

/// The view of an asset slot.
pub open spec fn slot_view(slot: Option<String>) -> Option<Seq<char>> {
    match slot {
        None => None,
        Some(s) => Some(s@),
    }
}

/// Digit strings are plain CSV fields.
proof fn lemma_digits_field_plain(s: Seq<char>)
    requires
        crate::decimal::all_digits(s),
    ensures
        field_plain(s),
{
    assert forall|i: int| 0 <= i < s.len() implies #[trigger] s[i] != ',' && s[i] != '"' && s[i]
        != '\n' && s[i] != '\r' by {
        assert(crate::decimal::is_digit(s[i]));
    }
}

/// A rendered fixed-point value is a plain CSV field.
proof fn lemma_format_fp_plain(q: u64, digits: u32)
    ensures
        field_plain(spec_format_fp(q, digits)),
{
    let d = if digits <= 8 {
        digits as nat
    } else {
        8nat
    };
    let quantum = crate::fixed::pow10((8 - d) as nat);
    crate::fixed::lemma_pow10_pos((8 - d) as nat);
    let v = (((q + quantum / 2) as nat) / quantum) * quantum;
    let ip = dec_digits((v as u64 / SCALE) as nat);
    crate::decimal::lemma_dec_digits_wf((v as u64 / SCALE) as nat);
    lemma_digits_field_plain(ip);
    if d == 0 {
    } else {
        let fp = ((v as u64 % SCALE) as nat) / quantum;
        crate::decimal::lemma_padded_all_digits(fp, d);
        let frac = crate::decimal::padded_digits(fp, d);
        lemma_digits_field_plain(frac);
        let s = ip + seq!['.'] + frac;
        assert forall|i: int| 0 <= i < s.len() implies #[trigger] s[i] != ',' && s[i] != '"'
            && s[i] != '\n' && s[i] != '\r' by {
            if i < ip.len() {
                assert(s[i] == ip[i]);
            } else if i == ip.len() {
                assert(s[i] == '.');
            } else {
                assert(s[i] == frac[i - ip.len() - 1]);
            }
        }
    }
}

/// A rendered signed value is a plain CSV field.
proof fn lemma_format_signed_plain(v: i64)
    ensures
        field_plain(spec_format_fp_signed(v)),
{
    if v < 0 {
        lemma_format_fp_plain((-v) as u64, 8);
        let mag = spec_format_fp((-v) as u64, 8);
        let s = seq!['-'] + mag;
        assert forall|i: int| 0 <= i < s.len() implies #[trigger] s[i] != ',' && s[i] != '"'
            && s[i] != '\n' && s[i] != '\r' by {
            if i == 0 {
                assert(s[i] == '-');
            } else {
                assert(s[i] == mag[i - 1]);
            }
        }
    } else {
        lemma_format_fp_plain(v as u64, 8);
    }
}

/// The columns of a normal record are plain, and the first column (a digit
/// string) is non-empty and opens with a digit.
pub proof fn lemma_record_fields_normal(data: ArbData)
    requires
        record_normal(data),
    ensures
        fields_plain(record_fields(data)),
        record_fields(data).len() == 12,
        record_fields(data)[0].len() > 0,
        crate::decimal::is_digit(record_fields(data)[0][0]),
{
    let fs = record_fields(data);
    crate::decimal::lemma_dec_digits_wf(data.timestamp as nat);
    crate::decimal::lemma_dec_digits_wf(data.arb_length as nat);
    assert forall|i: int| 0 <= i < fs.len() implies field_plain(#[trigger] fs[i]) by {
        if i == 0 {
            lemma_digits_field_plain(dec_digits(data.timestamp as nat));
        } else if i == 1 {
            lemma_digits_field_plain(dec_digits(data.arb_length as nat));
        } else if i == 2 {
            lemma_format_fp_plain(data.arb_rate, 8);
        } else if i == 3 {
            lemma_format_signed_plain(data.arb_surface);
        } else {
            assert(field_plain(Seq::<char>::empty()));
        }
    }
}

} // verus!
