//! One run: from a page's HTML and the ledger to the report.
use vstd::prelude::*;
use crate::decode::{
    base64_decoded, decode_config, decoded_fields, error_message, json_is_object, json_string_member,
    FieldsView, VersionFields,
};
use vstd::utf8::{decode_utf8, valid_utf8};
use crate::extract::{config_blob, extract_config_blob, web_player_url};
use crate::ledger::{opt_view, Ledger, RecordView, VersionRecord};
use crate::render::{json_string, push_json_string, push_record, push_str, record_text};
use crate::text::string_from_chars;
use crate::version::{key_of, version_key};

verus! {

/// The outcome of a run.
pub enum Report {
    /// A stage failed; `error` says which.
    Failure { error: String },
    /// The version's key was already in the ledger.
    Known { key: String },
    /// The version was new and has been added under `key`.
    Added { key: String, record: VersionRecord },
}

pub enum ReportView {
    Failure { error: Seq<char> },
    Known { key: Seq<char> },
    Added { key: Seq<char>, record: RecordView },
}

impl View for Report {
    type V = ReportView;

    open spec fn view(&self) -> ReportView {
        match self {
            Report::Failure { error } => ReportView::Failure { error: error@ },
            Report::Known { key } => ReportView::Known { key: key@ },
            Report::Added { key, record } => ReportView::Added { key: key@, record: record@ },
        }
    }
}

pub open spec fn is_success(r: ReportView) -> bool {
    !(r is Failure)
}

pub open spec fn not_found_message() -> Seq<char> {
    "appServerConfig tag not found"@
}

pub open spec fn known_message(key: Seq<char>) -> Seq<char> {
    "Version "@ + key + " already exists"@
}

pub open spec fn added_message(client_version: Seq<char>) -> Seq<char> {
    "New version "@ + client_version + " detected and saved"@
}

/// The report as one compact JSON object, members in alphabetical order.
pub open spec fn report_text(r: ReportView) -> Seq<char> {
    match r {
        ReportView::Failure { error } => "{\"error\":"@ + json_string(error)
            + ",\"success\":false}"@,
        ReportView::Known { key } => "{\"is_new\":false,\"key\":"@ + json_string(key)
            + ",\"message\":"@ + json_string(known_message(key)) + ",\"success\":true}"@,
        ReportView::Added { key, record } => "{\"data\":"@ + record_text(record, false)
            + ",\"is_new\":true,\"key\":"@ + json_string(key) + ",\"message\":"@ + json_string(
            added_message(record.client_version),
        ) + ",\"success\":true}"@,
    }
}

/// The record that a run stores for the fields it read.
pub open spec fn record_of(f: FieldsView, web_player: Option<Seq<char>>) -> RecordView {
    RecordView {
        client_version: f.client_version,
        build_date: f.build_date,
        build_version: f.build_version,
        web_player,
    }
}

/// The ledger and report after recording `f`: added under its key where
/// the key is new, the ledger unchanged where it is not.
pub open spec fn recorded(
    m: Map<Seq<char>, RecordView>,
    f: FieldsView,
    web_player: Option<Seq<char>>,
) -> (Map<Seq<char>, RecordView>, ReportView) {
    let key = key_of(f.client_version);
    if m.contains_key(key) {
        (m, ReportView::Known { key })
    } else {
        let rec = record_of(f, web_player);
        (m.insert(key, rec), ReportView::Added { key, record: rec })
    }
}

/// The ledger and report after a run on the page `html`.
pub open spec fn page_outcome(html: Seq<char>, m: Map<Seq<char>, RecordView>) -> (
    Map<Seq<char>, RecordView>,
    ReportView,
) {
    match config_blob(html) {
        None => (m, ReportView::Failure { error: not_found_message() }),
        Some(blob) => match decoded_fields(blob) {
            Err(e) => (m, ReportView::Failure { error: error_message(e) }),
            Ok(f) => recorded(m, f, web_player_url(html)),
        },
    }
}

/// Records the version `fields` in the ledger unless its key is there.
pub fn record_version(ledger: &mut Ledger, fields: VersionFields, web_player: Option<String>) -> (r: Report)
    requires
        old(ledger).wf(),
    ensures
        final(ledger).wf(),
        (final(ledger)@, r@) == recorded(old(ledger)@, fields@, opt_view(web_player)),
{
    let key = version_key(fields.client_version.as_str());
    if ledger.contains(&key) {
        Report::Known { key }
    } else {
        let record = VersionRecord {
            client_version: fields.client_version,
            build_date: fields.build_date,
            build_version: fields.build_version,
            web_player,
        };
        ledger.insert(key.clone(), record.duplicate());
        Report::Added { key, record }
    }
}

/// What reading a page gives: the version fields and web player URL, or the
/// failure report of the stage that failed.
pub open spec fn page_reading(html: Seq<char>) -> Result<(FieldsView, Option<Seq<char>>), ReportView> {
    match config_blob(html) {
        None => Err(ReportView::Failure { error: not_found_message() }),
        Some(blob) => match decoded_fields(blob) {
            Err(e) => Err(ReportView::Failure { error: error_message(e) }),
            Ok(f) => Ok((f, web_player_url(html))),
        },
    }
}

/// Finds the blob in a fetched page and decodes it: the version fields and
/// the web player URL, or the failure report.
pub fn read_page(html: &str) -> (r: Result<(VersionFields, Option<String>), Report>)
    ensures
        match r {
            Ok((f, w)) => page_reading(html@) == Ok::<(FieldsView, Option<Seq<char>>), ReportView>(
                (f@, opt_view(w)),
            ),
            Err(rep) => page_reading(html@) == Err::<(FieldsView, Option<Seq<char>>), ReportView>(
                rep@,
            ),
        },
{
    let (blob, web_player) = extract_config_blob(html);
    let blob = match blob {
        Some(b) => b,
        None => {
            return Err(Report::Failure { error: String::from_str("appServerConfig tag not found") });
        },
    };
    match decode_config(blob.as_str()) {
        Err(e) => Err(Report::Failure { error: e.message() }),
        Ok(fields) => Ok((fields, web_player)),
    }
}

/// Runs the pipeline on a fetched page: finds the blob, decodes it and
/// records the version. Every failure becomes a `Failure` report and leaves
/// the ledger as it was.
pub fn process_page(html: &str, ledger: &mut Ledger) -> (r: Report)
    requires
        old(ledger).wf(),
    ensures
        final(ledger).wf(),
        (final(ledger)@, r@) == page_outcome(html@, old(ledger)@),
{
    match read_page(html) {
        Err(report) => report,
        Ok((fields, web_player)) => record_version(ledger, fields, web_player),
    }
}

impl Report {
    /// A failure report for `error`.
    pub fn failure(error: String) -> (r: Report)
        ensures
            r@ == (ReportView::Failure { error: error@ }),
    {
        Report::Failure { error }
    }

    /// Whether the run reached its end.
    pub fn is_success(&self) -> (r: bool)
        ensures
            r == is_success(self@),
    {
        !matches!(self, Report::Failure { .. })
    }

    /// Whether the run added a new version.
    pub fn is_new(&self) -> (r: bool)
        ensures
            r == (self@ is Added),
    {
        matches!(self, Report::Added { .. })
    }

    /// The report as one line of JSON.
    pub fn to_json(&self) -> (r: String)
        ensures
            r@ == report_text(self@),
    {
        let mut out: Vec<char> = Vec::new();
        match self {
            Report::Failure { error } => {
                push_str(&mut out, "{\"error\":");
                push_json_string(&mut out, error.as_str());
                push_str(&mut out, ",\"success\":false}");
            },
            Report::Known { key } => {
                push_str(&mut out, "{\"is_new\":false,\"key\":");
                push_json_string(&mut out, key.as_str());
                push_str(&mut out, ",\"message\":");
                let mut msg = String::from_str("Version ");
                msg.append(key.as_str());
                msg.append(" already exists");
                push_json_string(&mut out, msg.as_str());
                push_str(&mut out, ",\"success\":true}");
            },
            Report::Added { key, record } => {
                push_str(&mut out, "{\"data\":");
                push_record(&mut out, record, false);
                push_str(&mut out, ",\"is_new\":true,\"key\":");
                push_json_string(&mut out, key.as_str());
                push_str(&mut out, ",\"message\":");
                let mut msg = String::from_str("New version ");
                msg.append(record.client_version.as_str());
                msg.append(" detected and saved");
                push_json_string(&mut out, msg.as_str());
                push_str(&mut out, ",\"success\":true}");
            },
        }
        assert(out@ =~= report_text(self@));
        string_from_chars(&out)
    }
}

/// A page whose configuration blob is a non-empty base64 encoding of a JSON
/// object with string members `clientVersion` and `buildDate` gives a
/// successful report, whatever the ledger holds.
pub proof fn lemma_valid_config_succeeds(
    html: Seq<char>,
    m: Map<Seq<char>, RecordView>,
    bytes: Seq<u8>,
)
    requires
        config_blob(html) is Some,
        config_blob(html)->0.len() > 0,
        base64_decoded(config_blob(html)->0) == Some(bytes),
        valid_utf8(bytes),
        json_is_object(decode_utf8(bytes)),
        json_string_member(decode_utf8(bytes), "clientVersion"@) is Some,
        json_string_member(decode_utf8(bytes), "buildDate"@) is Some,
    ensures
        is_success(page_outcome(html, m).1),
{
}

/// Recording two versions with the same key, one run after the other, adds
/// the first and finds the second already known, leaving the ledger as the
/// first run left it.
pub proof fn lemma_second_run_known(
    m: Map<Seq<char>, RecordView>,
    first: FieldsView,
    second: FieldsView,
    player1: Option<Seq<char>>,
    player2: Option<Seq<char>>,
)
    requires
        !m.contains_key(key_of(first.client_version)),
        key_of(first.client_version) == key_of(second.client_version),
    ensures
        recorded(m, first, player1).1 is Added,
        recorded(recorded(m, first, player1).0, second, player2).1 is Known,
        recorded(recorded(m, first, player1).0, second, player2).0 == recorded(m, first, player1).0,
{
}

} // verus!
