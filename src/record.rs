//! Records extracted from metadata documents, and the tally of a batch of files.

use vstd::prelude::*;
use crate::document::{
    Document, JsonObject, lookup, extract_str, extract_outer_str, extract_u32_from_obj,
    extract_u64_from_obj, get_u32, preferred_str, outer_str, u32_or_zero, u64_or_zero, u32_field,
};
use crate::json::{document_reads, is_json, parse_document};

verus! {

/// One episode part, as read from one metadata file.
pub struct Record {
    /// Order of the part within its tab (the outer `p`).
    pub position: u32,
    pub title: String,
    pub duration: u32,
    pub loaded_size: u64,
    pub external_id: String,
    pub content_id: u64,
    pub collection_title: String,
    pub tab_name: String,
}

/// The mathematical value of a [`Record`].
pub struct RecordView {
    pub position: u32,
    pub title: Seq<char>,
    pub duration: u32,
    pub loaded_size: u64,
    pub external_id: Seq<char>,
    pub content_id: u64,
    pub collection_title: Seq<char>,
    pub tab_name: Seq<char>,
}

impl View for Record {
    type V = RecordView;

    open spec fn view(&self) -> RecordView {
        RecordView {
            position: self.position,
            title: self.title@,
            duration: self.duration,
            loaded_size: self.loaded_size,
            external_id: self.external_id@,
            content_id: self.content_id,
            collection_title: self.collection_title@,
            tab_name: self.tab_name@,
        }
    }
}

impl Record {
    /// A copy of this record.
    pub fn duplicate(&self) -> (r: Record)
        ensures
            r == *self,
    {
        Record {
            position: self.position,
            title: self.title.clone(),
            duration: self.duration,
            loaded_size: self.loaded_size,
            external_id: self.external_id.clone(),
            content_id: self.content_id,
            collection_title: self.collection_title.clone(),
            tab_name: self.tab_name.clone(),
        }
    }
}

/// A record together with the episode number that its file proposes for its title.
pub struct ParsedEntry {
    pub record: Record,
    pub episode_candidate: Option<u32>,
}

/// The record that a document describes.
pub open spec fn record_of(d: Document) -> RecordView {
    RecordView {
        position: u32_or_zero(d.root, "p"@),
        title: preferred_str(d.root, d.ep_info, "title"@),
        duration: u32_or_zero(d.root, "duration"@),
        loaded_size: u64_or_zero(d.root, "loadedSize"@),
        external_id: preferred_str(d.root, d.ep_info, "bvid"@),
        content_id: u64_or_zero(d.root, "cid"@),
        collection_title: preferred_str(d.root, d.ep_info, "groupTitle"@),
        tab_name: outer_str(d.root, "tabName"@),
    }
}

/// The episode number a document proposes: the episode info's `p` when it
/// has a usable one, else the outer `p`.
pub open spec fn candidate_of(d: Document) -> Option<u32> {
    match d.ep_info {
        Some(e) => match u32_field(e, "p"@) {
            Some(n) => Some(n),
            None => Some(u32_or_zero(d.root, "p"@)),
        },
        None => Some(u32_or_zero(d.root, "p"@)),
    }
}

/// Extracts the record and episode-number candidate of one document.
pub fn entry_from_document(d: &Document) -> (r: ParsedEntry)
    ensures
        r.record@ == record_of(*d),
        r.episode_candidate == candidate_of(*d),
{
    let ep_info: Option<&JsonObject> = match &d.ep_info {
        Some(e) => Some(e),
        None => None,
    };
    let collection_title = extract_str(&d.root, ep_info, "groupTitle");
    let title = extract_str(&d.root, ep_info, "title");
    let tab_name = extract_outer_str(&d.root, "tabName");
    let outer_p = extract_u32_from_obj(&d.root, "p");
    let episode_candidate = match ep_info {
        Some(ep) => match get_u32(ep, "p") {
            Some(n) => Some(n),
            None => Some(outer_p),
        },
        None => Some(outer_p),
    };
    let record = Record {
        position: outer_p,
        title,
        duration: extract_u32_from_obj(&d.root, "duration"),
        loaded_size: extract_u64_from_obj(&d.root, "loadedSize"),
        external_id: extract_str(&d.root, ep_info, "bvid"),
        content_id: extract_u64_from_obj(&d.root, "cid"),
        collection_title,
        tab_name,
    };
    ParsedEntry { record, episode_candidate }
}

/// Without episode info, title, identifier and collection come from the
/// outer object, and the proposed episode number is the outer `p`.
pub proof fn lemma_without_episode_info(d: Document)
    requires
        d.ep_info is None,
    ensures
        record_of(d).title == outer_str(d.root, "title"@),
        record_of(d).external_id == outer_str(d.root, "bvid"@),
        record_of(d).collection_title == outer_str(d.root, "groupTitle"@),
        candidate_of(d) == Some(u32_or_zero(d.root, "p"@)),
{
}

/// Episode info carrying a numeric `p` decides the proposed episode number,
/// whatever the outer `p` is.
pub proof fn lemma_episode_info_number(d: Document)
    requires
        d.ep_info is Some,
        u32_field(d.ep_info.unwrap(), "p"@) is Some,
    ensures
        candidate_of(d) == u32_field(d.ep_info.unwrap(), "p"@),
        forall|d2: Document| d2.ep_info == d.ep_info ==> candidate_of(d2) == candidate_of(d),
{
}

/// The tab name is read from the outer object only: the episode info never changes it.
pub proof fn lemma_tab_name_from_outer(d: Document, ep_info: Option<JsonObject>)
    ensures
        record_of(Document { root: d.root, ep_info }).tab_name == record_of(d).tab_name,
        record_of(d).tab_name == outer_str(d.root, "tabName"@),
{
}

/// What became of one candidate file.
pub enum FileOutcome {
    /// The file could not be read.
    ReadFailed,
    /// The file's contents are not JSON.
    ParseFailed,
    /// The file gave a record.
    Parsed(ParsedEntry),
}

/// The record and candidate that a file's bytes give: those of the document
/// that serde_json reads from them.
pub open spec fn entry_reads(b: Seq<u8>, e: ParsedEntry) -> bool {
    exists|d: Document| document_reads(b, d) && e.record@ == record_of(d) && e.episode_candidate == candidate_of(d)
}

/// The bytes of a file fix its record: any two documents read from the same
/// bytes give the same record and the same candidate.
pub proof fn lemma_record_determined(b: Seq<u8>, d1: Document, d2: Document)
    requires
        document_reads(b, d1),
        document_reads(b, d2),
    ensures
        record_of(d1) == record_of(d2),
        candidate_of(d1) == candidate_of(d2),
{
    assert forall|k: Seq<char>| lookup(d1.root.entries@, k) == lookup(d2.root.entries@, k) by {
        assert(lookup(d1.root.entries@, k) == lookup(d1.root.entries@, k));
    }
    if d1.ep_info is Some {
        let e1 = d1.ep_info.unwrap();
        let e2 = d2.ep_info.unwrap();
        assert forall|k: Seq<char>| lookup(e1.entries@, k) == lookup(e2.entries@, k) by {
            assert(lookup(e1.entries@, k) == lookup(e1.entries@, k));
        }
    }
}

/// Parses the contents of one file (`None`: it could not be read).
pub fn classify_file(contents: Option<&[u8]>) -> (r: FileOutcome)
    ensures
        contents is None ==> r is ReadFailed,
        contents is Some ==> (r is ParseFailed <==> !is_json(contents.unwrap()@)),
        contents is Some ==> (r is Parsed <==> is_json(contents.unwrap()@)),
        r is Parsed ==> contents is Some && entry_reads(contents.unwrap()@, r->Parsed_0),
{
    match contents {
        None => FileOutcome::ReadFailed,
        Some(bytes) => match parse_document(bytes) {
            Some(d) => {
                let e = entry_from_document(&d);
                assert(document_reads(bytes@, d));
                FileOutcome::Parsed(e)
            },
            None => FileOutcome::ParseFailed,
        },
    }
}

impl ParsedEntry {
    /// A copy of this entry.
    pub fn duplicate(&self) -> (r: ParsedEntry)
        ensures
            r == *self,
    {
        ParsedEntry { record: self.record.duplicate(), episode_candidate: self.episode_candidate }
    }
}

/// The outcome of a batch of files: the records in file order and the failure counts.
pub struct ParseSummary {
    pub entries: Vec<ParsedEntry>,
    pub read_failures: usize,
    pub parse_failures: usize,
    /// The indices of the files whose contents are not JSON.
    pub malformed: Vec<usize>,
}

/// The entries of the files that gave a record, in file order.
pub open spec fn parsed_entries(s: Seq<FileOutcome>) -> Seq<ParsedEntry>
    decreases s.len(),
{
    if s.len() == 0 {
        Seq::empty()
    } else {
        match s.last() {
            FileOutcome::Parsed(e) => parsed_entries(s.drop_last()).push(e),
            _ => parsed_entries(s.drop_last()),
        }
    }
}

/// How many files could not be read.
pub open spec fn read_failure_count(s: Seq<FileOutcome>) -> nat
    decreases s.len(),
{
    if s.len() == 0 {
        0
    } else {
        read_failure_count(s.drop_last()) + if s.last() is ReadFailed { 1nat } else { 0nat }
    }
}

/// The indices of the files whose contents are not JSON, in order.
pub open spec fn malformed_indices(s: Seq<FileOutcome>) -> Seq<int>
    decreases s.len(),
{
    if s.len() == 0 {
        Seq::empty()
    } else if s.last() is ParseFailed {
        malformed_indices(s.drop_last()).push(s.len() - 1)
    } else {
        malformed_indices(s.drop_last())
    }
}

proof fn lemma_counts_bounded(s: Seq<FileOutcome>)
    ensures
        read_failure_count(s) + malformed_indices(s).len() + parsed_entries(s).len() == s.len(),
    decreases s.len(),
{
    if s.len() > 0 {
        lemma_counts_bounded(s.drop_last());
    }
}

/// Gathers the outcomes of a batch of files.
pub fn tally(outcomes: &Vec<FileOutcome>) -> (r: ParseSummary)
    ensures
        r.entries@ == parsed_entries(outcomes@),
        r.read_failures == read_failure_count(outcomes@),
        r.parse_failures == malformed_indices(outcomes@).len(),
        r.malformed@.map_values(|i: usize| i as int) == malformed_indices(outcomes@),
{
    let mut entries: Vec<ParsedEntry> = Vec::new();
    let mut read_failures: usize = 0;
    let mut malformed: Vec<usize> = Vec::new();
    let mut i: usize = 0;
    while i < outcomes.len()
        invariant
            0 <= i <= outcomes@.len(),
            entries@ == parsed_entries(outcomes@.subrange(0, i as int)),
            read_failures == read_failure_count(outcomes@.subrange(0, i as int)),
            malformed@.map_values(|j: usize| j as int) == malformed_indices(outcomes@.subrange(0, i as int)),
        decreases outcomes@.len() - i,
    {
        let ghost pre = outcomes@.subrange(0, i + 1);
        assert(pre.drop_last() =~= outcomes@.subrange(0, i as int));
        proof {
            lemma_counts_bounded(outcomes@.subrange(0, i as int));
        }
        match &outcomes[i] {
            FileOutcome::ReadFailed => {
                read_failures = read_failures + 1;
            },
            FileOutcome::ParseFailed => {
                let ghost before = malformed@;
                malformed.push(i);
                assert(malformed@.map_values(|j: usize| j as int) =~= before.map_values(
                    |j: usize| j as int,
                ).push(i as int));
            },
            FileOutcome::Parsed(e) => {
                entries.push(e.duplicate());
            },
        }
        i = i + 1;
    }
    assert(outcomes@.subrange(0, outcomes@.len() as int) =~= outcomes@);
    let parse_failures = malformed.len();
    assert(malformed@.map_values(|j: usize| j as int).len() == malformed@.len());
    ParseSummary { entries, read_failures, parse_failures, malformed }
}

/// A file whose contents are not JSON adds nothing to the records and one to
/// the parse failures: the batch without it gives the same records.
pub proof fn lemma_malformed_excluded(s: Seq<FileOutcome>, i: int)
    requires
        0 <= i < s.len(),
        s[i] is ParseFailed,
    ensures
        parsed_entries(s) == parsed_entries(s.remove(i)),
        malformed_indices(s).len() == malformed_indices(s.remove(i)).len() + 1,
        malformed_indices(s).contains(i),
        read_failure_count(s) == read_failure_count(s.remove(i)),
    decreases s.len(),
{
    if i == s.len() - 1 {
        assert(s.remove(i) =~= s.drop_last());
        assert(malformed_indices(s).last() == i);
    } else {
        let t = s.drop_last();
        lemma_malformed_excluded(t, i);
        assert(s.remove(i).drop_last() =~= t.remove(i));
        assert(s.remove(i).last() == s.last());
        let k = choose|k: int| 0 <= k < malformed_indices(t).len() && malformed_indices(t)[k] == i;
        if s.last() is ParseFailed {
            assert(malformed_indices(s)[k] == i);
        } else {
            assert(malformed_indices(s)[k] == i);
        }
    }
}

} // verus!
