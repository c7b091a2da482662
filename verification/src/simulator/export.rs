//! One line of a table for each run.

use crate::simulator::engine::{SimulationConfig, SimulationResult};
use crate::simulator::protocols::ProtocolKind;
use crate::simulator::text;
use crate::simulator::text::{decimal, join_with_commas, truth};
use crate::simulator::topology::TopologyKind;
use crate::simulator::workload::DivergencePattern;
use vstd::prelude::*;

verus! {

/// The parameters and results of a run.
#[derive(Debug)]
pub struct RunSummaryRow {
    pub protocol: String,
    pub topology: String,
    pub num_replicas: usize,
    pub set_size: usize,
    pub payload_size: usize,
    pub digest_bits: usize,
    /// In decimal.
    pub jaccard_similarity: String,
    pub pattern: String,
    pub seed: u64,
    pub round_cap: usize,
    pub rounds: usize,
    pub converged: bool,
    pub target_union_size: usize,
    pub total_state_bytes_sent: usize,
    pub total_metadata_bytes_sent: usize,
    pub total_encode_time_ns: u128,
    pub total_decode_time_ns: u128,
    pub total_elements_added: usize,
}

/// The name of a kind of topology.
pub open spec fn topology_text(kind: TopologyKind) -> Seq<char> {
    match kind {
        TopologyKind::Star => "Star"@,
        TopologyKind::Tree => "Tree"@,
        TopologyKind::Chord => "Chord"@,
    }
}

/// The name of a kind of topology.
pub fn topology_name(kind: TopologyKind) -> (s: String)
    ensures
        s@ == topology_text(kind),
{
    match kind {
        TopologyKind::Star => "Star".to_string(),
        TopologyKind::Tree => "Tree".to_string(),
        TopologyKind::Chord => "Chord".to_string(),
    }
}

/// The name of a pattern.
pub open spec fn pattern_text(pattern: DivergencePattern) -> Seq<char> {
    match pattern {
        DivergencePattern::Uniform => "Uniform"@,
        DivergencePattern::Clustered => "Clustered"@,
    }
}

/// The name of a pattern.
pub fn divergence_pattern_to_string(pattern: DivergencePattern) -> (s: String)
    ensures
        s@ == pattern_text(pattern),
{
    match pattern {
        DivergencePattern::Uniform => "Uniform".to_string(),
        DivergencePattern::Clustered => "Clustered".to_string(),
    }
}

impl RunSummaryRow {
    /// The row of a run. `jaccard_similarity` is the configured similarity in decimal.
    pub fn from_run(
        config: &SimulationConfig,
        result: &SimulationResult,
        target_union_size: usize,
        jaccard_similarity: String,
    ) -> (r: Self)
        ensures
            r.protocol@ == result.protocol.text(),
            r.topology@ == topology_text(result.topology),
            r.num_replicas == config.workload.num_replicas,
            r.set_size == config.workload.set_size,
            r.payload_size == config.workload.payload_size,
            r.digest_bits == config.workload.digest_bits,
            r.jaccard_similarity == jaccard_similarity,
            r.pattern@ == pattern_text(config.workload.pattern),
            r.seed == config.seed,
            r.round_cap == config.round_cap,
            r.rounds == result.rounds,
            r.converged == result.converged,
            r.target_union_size == target_union_size,
            r.total_state_bytes_sent == result.metrics.total_state_bytes_sent,
            r.total_metadata_bytes_sent == result.metrics.total_metadata_bytes_sent,
            r.total_encode_time_ns == result.metrics.total_encode_time,
            r.total_decode_time_ns == result.metrics.total_decode_time,
            r.total_elements_added == result.metrics.total_elements_added,
    {
        RunSummaryRow {
            protocol: result.protocol.name(),
            topology: topology_name(result.topology),
            num_replicas: config.workload.num_replicas,
            set_size: config.workload.set_size,
            payload_size: config.workload.payload_size,
            digest_bits: config.workload.digest_bits,
            jaccard_similarity,
            pattern: divergence_pattern_to_string(config.workload.pattern),
            seed: config.seed,
            round_cap: config.round_cap,
            rounds: result.rounds,
            converged: result.converged,
            target_union_size,
            total_state_bytes_sent: result.metrics.total_state_bytes_sent,
            total_metadata_bytes_sent: result.metrics.total_metadata_bytes_sent,
            total_encode_time_ns: result.metrics.total_encode_time,
            total_decode_time_ns: result.metrics.total_decode_time,
            total_elements_added: result.metrics.total_elements_added,
        }
    }

    /// The names of the columns.
    pub fn csv_header() -> (s: String)
        ensures
            s@ == HEADER@,
    {
        HEADER.to_string()
    }

    /// The values of the columns.
    pub open spec fn columns(self) -> Seq<Seq<char>> {
        seq![
            self.protocol@,
            self.topology@,
            text::digits(self.num_replicas as nat),
            text::digits(self.set_size as nat),
            text::digits(self.payload_size as nat),
            text::digits(self.digest_bits as nat),
            self.jaccard_similarity@,
            self.pattern@,
            text::digits(self.seed as nat),
            text::digits(self.round_cap as nat),
            text::digits(self.rounds as nat),
            text::truth_text(self.converged),
            text::digits(self.target_union_size as nat),
            text::digits(self.total_state_bytes_sent as nat),
            text::digits(self.total_metadata_bytes_sent as nat),
            text::digits(self.total_encode_time_ns as nat),
            text::digits(self.total_decode_time_ns as nat),
            text::digits(self.total_elements_added as nat),
        ]
    }

    /// The values of the columns, with commas between them.
    pub fn to_csv_row(&self) -> (s: String)
        ensures
            s@ == text::comma_separated(self.columns()),
    {
        let mut fields: Vec<String> = Vec::new();
        fields.push(self.protocol.clone());
        fields.push(self.topology.clone());
        fields.push(decimal(self.num_replicas as u128));
        fields.push(decimal(self.set_size as u128));
        fields.push(decimal(self.payload_size as u128));
        fields.push(decimal(self.digest_bits as u128));
        fields.push(self.jaccard_similarity.clone());
        fields.push(self.pattern.clone());
        fields.push(decimal(self.seed as u128));
        fields.push(decimal(self.round_cap as u128));
        fields.push(decimal(self.rounds as u128));
        fields.push(truth(self.converged));
        fields.push(decimal(self.target_union_size as u128));
        fields.push(decimal(self.total_state_bytes_sent as u128));
        fields.push(decimal(self.total_metadata_bytes_sent as u128));
        fields.push(decimal(self.total_encode_time_ns));
        fields.push(decimal(self.total_decode_time_ns));
        fields.push(decimal(self.total_elements_added as u128));
        assert(text::texts(fields@) =~= self.columns());
        join_with_commas(&fields)
    }

    /// The lines to append to a table: the row, and before it the header if the table is empty.
    pub fn csv_lines(&self, table_is_empty: bool) -> (r: Vec<String>)
        ensures
            text::texts(r@) == if table_is_empty {
                seq![HEADER@, text::comma_separated(self.columns())]
            } else {
                seq![text::comma_separated(self.columns())]
            },
    {
        let mut r: Vec<String> = Vec::new();
        if table_is_empty {
            r.push(Self::csv_header());
        }
        r.push(self.to_csv_row());
        assert(text::texts(r@) =~= if table_is_empty {
            seq![HEADER@, text::comma_separated(self.columns())]
        } else {
            seq![text::comma_separated(self.columns())]
        });
        r
    }
}

/// The names of the columns.
pub const HEADER: &'static str = "protocol,topology,num_replicas,set_size,payload_size,digest_bits,jaccard_similarity,pattern,seed,round_cap,rounds,converged,target_union_size,total_state_bytes_sent,total_metadata_bytes_sent,total_encode_time_ns,total_decode_time_ns,total_elements_added";

proof fn lemma_no_comma(n: nat)
    ensures
        !text::digits(n).contains(','),
{
    text::lemma_digits_read(n);
    let s = text::digits(n);
    if s.contains(',') {
        let i = choose|i: int| 0 <= i < s.len() && s[i] == ',';
        assert('0' <= s[i]);
    }
}

/// A row can be read back: its parts between the commas are, in the order of the header, the
/// names, the parameters and the results of the run, the numbers in decimal.
pub proof fn lemma_row_reads(r: RunSummaryRow)
    requires
        !r.protocol@.contains(','),
        !r.topology@.contains(','),
        !r.jaccard_similarity@.contains(','),
        !r.pattern@.contains(','),
    ensures
        ({
            let p = text::parts(text::comma_separated(r.columns()));
            &&& p.len() == 18
            &&& p[0] == r.protocol@
            &&& p[1] == r.topology@
            &&& text::number(p[2]) == r.num_replicas
            &&& text::number(p[3]) == r.set_size
            &&& text::number(p[4]) == r.payload_size
            &&& text::number(p[5]) == r.digest_bits
            &&& p[6] == r.jaccard_similarity@
            &&& p[7] == r.pattern@
            &&& text::number(p[8]) == r.seed
            &&& text::number(p[9]) == r.round_cap
            &&& text::number(p[10]) == r.rounds
            &&& p[11] == if r.converged {
                "true"@
            } else {
                "false"@
            }
            &&& text::number(p[12]) == r.target_union_size
            &&& text::number(p[13]) == r.total_state_bytes_sent
            &&& text::number(p[14]) == r.total_metadata_bytes_sent
            &&& text::number(p[15]) == r.total_encode_time_ns
            &&& text::number(p[16]) == r.total_decode_time_ns
            &&& text::number(p[17]) == r.total_elements_added
        }),
{
    assert forall|n: nat| !(#[trigger] text::digits(n)).contains(',') && text::number(
        text::digits(n),
    ) == n by {
        lemma_no_comma(n);
        text::lemma_digits_read(n);
    }
    assert(!text::truth_text(r.converged).contains(',')) by {
        reveal_strlit("true");
        reveal_strlit("false");
        let t = text::truth_text(r.converged);
        if t.contains(',') {
            let i = choose|i: int| 0 <= i < t.len() && t[i] == ',';
            if r.converged {
                assert(i == 0 || i == 1 || i == 2 || i == 3);
            } else {
                assert(i == 0 || i == 1 || i == 2 || i == 3 || i == 4);
            }
        }
    }
    let c = r.columns();
    assert(c.len() == 18);
    assert forall|i: int| 0 <= i < c.len() implies !(#[trigger] c[i]).contains(',') by {
        assert(i == 0 || i == 1 || i == 2 || i == 3 || i == 4 || i == 5 || i == 6 || i == 7 || i
            == 8 || i == 9 || i == 10 || i == 11 || i == 12 || i == 13 || i == 14 || i == 15 || i
            == 16 || i == 17);
    }
    text::lemma_parts_of_joined(c);
}

/// The names of topologies, patterns and protocols tell them apart by length and first letter.
pub proof fn lemma_names(t: TopologyKind, p: DivergencePattern, k: ProtocolKind)
    ensures
        match t {
            TopologyKind::Star => topology_text(t).len() == 4 && topology_text(t)[0] == 'S',
            TopologyKind::Tree => topology_text(t).len() == 4 && topology_text(t)[0] == 'T',
            TopologyKind::Chord => topology_text(t).len() == 5 && topology_text(t)[0] == 'C',
        },
        match p {
            DivergencePattern::Uniform => pattern_text(p).len() == 7 && pattern_text(p)[0] == 'U',
            DivergencePattern::Clustered => pattern_text(p).len() == 9 && pattern_text(p)[0]
                == 'C',
        },
        match k {
            ProtocolKind::FullStateTransfer => k.text().len() == 17 && k.text()[0] == 'F',
            ProtocolKind::HybridRbfRiblt => k.text().len() == 14 && k.text()[0] == 'H',
            ProtocolKind::MultiReplica => k.text().len() == 12 && k.text()[0] == 'M',
            ProtocolKind::Riblt => k.text().len() == 5 && k.text()[0] == 'R',
            ProtocolKind::StaticBfIblt => k.text().len() == 12 && k.text()[0] == 'S',
        },
{
    reveal_strlit("Star");
    reveal_strlit("Tree");
    reveal_strlit("Chord");
    reveal_strlit("Uniform");
    reveal_strlit("Clustered");
    reveal_strlit("FullStateTransfer");
    reveal_strlit("HybridRbfRiblt");
    reveal_strlit("MultiReplica");
    reveal_strlit("Riblt");
    reveal_strlit("StaticBfIblt");
}

} // verus!
