//! Labels of Tor flows, read from a CSV file of flows.
use vstd::prelude::*;
use crate::flow_table::FlowTable;
use crate::util::text::{flow_key, flow_key_text, key_sep};

verus! {

/// `csv::Error`, an error of the CSV reader.
#[verifier::external_type_specification]
#[verifier::external_body]
pub struct ExCsvError(csv::Error);

/// The records of a CSV text without a header row, each a list of fields, as
/// the `csv` crate reads them; `None` when it reports an error.
pub uninterp spec fn csv_records(bytes: Seq<u8>) -> Option<Seq<Seq<Seq<char>>>>;

/// The fields of each record, as character sequences.
pub open spec fn rows_view(rows: Seq<Vec<String>>) -> Seq<Seq<Seq<char>>> {
    rows.map_values(|row: Vec<String>| row@.map_values(|f: String| f@))
}

/// Reads `bytes` as CSV without a header row (`csv::ReaderBuilder` with
/// `has_headers(false)`, then `records`), and returns every record's fields,
/// or the first error. The contract names the outcome (`csv_records`) and
/// says no more of the format.
#[verifier::external_body]
fn read_csv_records(bytes: &[u8]) -> (r: Result<Vec<Vec<String>>, csv::Error>)
    ensures
        r is Ok <==> csv_records(bytes@) is Some,
        r matches Ok(rows) ==> rows_view(rows@) == csv_records(bytes@).unwrap(),
{
    csv::ReaderBuilder::new().has_headers(false).from_reader(bytes).records().map(
        |rec| rec.map(|rec| rec.iter().map(|f| f.to_string()).collect())
    ).collect()
}

/// The fields of a record joined by a comma and a space.
pub open spec fn join_fields(fields: Seq<Seq<char>>) -> Seq<char>
    decreases fields.len(),
{
    if fields.len() == 0 {
        Seq::empty()
    } else if fields.len() == 1 {
        fields[0]
    } else {
        join_fields(fields.drop_last()) + key_sep() + fields.last()
    }
}

/// The fields of a record joined by a comma and a space.
pub fn join_record(fields: &Vec<String>) -> (s: String)
    ensures
        s@ == join_fields(fields@.map_values(|f: String| f@)),
{
    let ghost fv = fields@.map_values(|f: String| f@);
    let mut s = String::new();
    let mut i: usize = 0;
    while i < fields.len()
        invariant
            i <= fields@.len(),
            fv == fields@.map_values(|f: String| f@),
            s@ == join_fields(fv.subrange(0, i as int)),
        decreases fields@.len() - i,
    {
        proof {
            assert(fv.subrange(0, i + 1).drop_last() =~= fv.subrange(0, i as int));
        }
        if i > 0 {
            proof { reveal_strlit(", "); }
            s.append(", ");
        }
        s.append(fields[i].as_str());
        proof {
            if i == 0 {
                assert(s@ =~= fv.subrange(0, 1)[0]);
            } else {
                assert(s@ =~= join_fields(fv.subrange(0, i as int)) + key_sep() + fv.subrange(0, i + 1).last());
            }
        }
        i = i + 1;
    }
    proof {
        assert(fv.subrange(0, fields@.len() as int) =~= fv);
    }
    s
}

/// The flows of some records: each record's fields joined by a comma and a space.
pub open spec fn labelled_flows(rows: Seq<Seq<Seq<char>>>) -> Set<Seq<char>> {
    Set::new(|k: Seq<char>| exists|a: int| 0 <= a < rows.len() && join_fields(rows[a]) == k)
}

/// Why a label file could not be read.
#[derive(Debug)]
pub enum FlowLabelError {
    /// The CSV reader reported an error.
    Csv(csv::Error),
}

/// The flows labelled as Tor.
pub struct FlowLabel {
    flows: FlowTable<()>,
}

impl View for FlowLabel {
    type V = Set<Seq<char>>;

    closed spec fn view(&self) -> Set<Seq<char>> {
        self.flows@.dom()
    }
}

impl FlowLabel {
    /// The labelled flows are well kept.
    pub closed spec fn wf(&self) -> bool {
        self.flows.wf()
    }

    /// The labels of the records `rows`: one flow per record, its fields
    /// joined by a comma and a space.
    pub fn from_records(rows: &Vec<Vec<String>>) -> (l: FlowLabel)
        ensures
            l.wf(),
            l@ == labelled_flows(rows_view(rows@)),
    {
        let ghost rv = rows_view(rows@);
        let mut flows: FlowTable<()> = FlowTable::new();
        let mut i: usize = 0;
        while i < rows.len()
            invariant
                i <= rows@.len(),
                rv == rows_view(rows@),
                flows.wf(),
                forall|k: Seq<char>| #[trigger] flows@.contains_key(k) <==> exists|a: int| 0 <= a < i && join_fields(rv[a]) == k,
            decreases rows@.len() - i,
        {
            let flow_str = join_record(&rows[i]);
            proof {
                assert(rv[i as int] == rows@[i as int]@.map_values(|f: String| f@));
            }
            flows.insert(flow_str, ());
            proof {
                assert forall|k: Seq<char>| #[trigger] flows@.contains_key(k) <==> exists|a: int| 0 <= a < i + 1 && join_fields(rv[a]) == k by {
                    if flows@.contains_key(k) && k == join_fields(rv[i as int]) {
                        assert(0 <= i < i + 1);
                    }
                }
            }
            i = i + 1;
        }
        let l = FlowLabel { flows };
        proof {
            assert(l@ =~= labelled_flows(rv));
        }
        l
    }

    /// The labels in the CSV text `csv_bytes`: one flow per record, its
    /// fields joined by a comma and a space; the CSV reader's error if it
    /// reports one.
    pub fn new(csv_bytes: &[u8]) -> (r: Result<FlowLabel, FlowLabelError>)
        ensures
            r is Ok <==> csv_records(csv_bytes@) is Some,
            r matches Ok(l) ==> l.wf() && l@ == labelled_flows(csv_records(csv_bytes@).unwrap()),
    {
        match read_csv_records(csv_bytes) {
            Ok(rows) => Ok(FlowLabel::from_records(&rows)),
            Err(e) => Err(FlowLabelError::Csv(e)),
        }
    }

    /// Whether the flow from `src_ip`:`src_port` to `dst_ip`:`dst_port` is
    /// labelled, in either direction.
    pub fn is_tor(&self, src_ip: &str, dst_ip: &str, src_port: &str, dst_port: &str) -> (b: bool)
        requires
            self.wf(),
        ensures
            b == (self@.contains(flow_key_text(src_ip@, dst_ip@, src_port@, dst_port@))
                || self@.contains(flow_key_text(dst_ip@, src_ip@, dst_port@, src_port@))),
    {
        let flow_key_upstream = flow_key(src_ip, dst_ip, src_port, dst_port);
        let flow_key_downstream = flow_key(dst_ip, src_ip, dst_port, src_port);
        if self.flows.contains_key(&flow_key_upstream) || self.flows.contains_key(&flow_key_downstream) {
            true
        } else {
            false
        }
    }
}

/// A flow is labelled whichever direction it is asked in.
pub proof fn lemma_label_is_direction_free(l: Set<Seq<char>>, a: Seq<char>, b: Seq<char>, c: Seq<char>, d: Seq<char>)
    ensures
        (l.contains(flow_key_text(a, b, c, d)) || l.contains(flow_key_text(b, a, d, c)))
            == (l.contains(flow_key_text(b, a, d, c)) || l.contains(flow_key_text(a, b, c, d))),
{
}

} // verus!
